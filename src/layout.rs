use vstd::prelude::*;
use crate::error::HarnessError;
use vstd::arithmetic::div_mod::lemma_fundamental_div_mod_converse;

verus! {

/// Size of a cache line in bytes.
pub const CACHE_LINE: u64 = 64;

/// Length in bytes of the speculation barrier (`lfence`) placed right before
/// the body.
pub const BARRIER_LEN: u64 = 3;

/// The no-operation lengths available for padding.
pub open spec fn is_nop_len(n: u8) -> bool {
    n == 15 || n == 4 || n == 1
}

/// The encoding of the no-operation instruction of each available length.
pub open spec fn nop_encoding(n: u8) -> Seq<u8> {
    if n == 15 {
        seq![0x66u8, 0x66, 0x66, 0x66, 0x66, 0x66, 0x2e, 0x0f, 0x1f, 0x84, 0x00, 0x00, 0x00, 0x00, 0x00]
    } else if n == 4 {
        seq![0x0fu8, 0x1f, 0x40, 0x00]
    } else {
        seq![0x90u8]
    }
}

/// Total length of a sequence of instruction lengths.
pub open spec fn total_len(s: Seq<u8>) -> int
    decreases s.len(),
{
    if s.len() == 0 {
        0
    } else {
        total_len(s.drop_last()) + s.last()
    }
}

/// The concatenated encodings of a sequence of no-operation lengths.
pub open spec fn nops_bytes(s: Seq<u8>) -> Seq<u8>
    decreases s.len(),
{
    if s.len() == 0 {
        Seq::empty()
    } else {
        nops_bytes(s.drop_last()) + nop_encoding(s.last())
    }
}

/// `n` copies of the length `len`.
pub open spec fn repeat_len(n: nat, len: u8) -> Seq<u8> {
    Seq::new(n, |_i: int| len)
}

/// The padding that `need` bytes call for: as many 15-byte forms as fit,
/// then 4-byte forms, then 1-byte forms.
pub open spec fn greedy_plan(need: nat) -> Seq<u8> {
    repeat_len(need / 15, 15) + repeat_len((need % 15) / 4, 4) + repeat_len(need % 15 % 4, 1)
}

/// Padding bytes needed after a preamble of `prefix_len` bytes so that the
/// barrier ends, and the body starts, on a cache-line boundary.
pub open spec fn pad_needed(prefix_len: int) -> int {
    (CACHE_LINE - (prefix_len + BARRIER_LEN) % (CACHE_LINE as int)) % (CACHE_LINE as int)
}

/// Offset of the body from the start of the region: the preamble, the
/// padding, then the barrier.
pub open spec fn body_offset(prefix_len: int) -> int {
    prefix_len + pad_needed(prefix_len) + BARRIER_LEN
}

/// The lengths of the no-operations that pad a preamble of `prefix_len`
/// bytes: as many 15-byte forms as fit, then 4-byte forms, then 1-byte forms.
pub fn padding_plan(prefix_len: u64) -> (r: Vec<u8>)
    ensures
        r@ == greedy_plan(pad_needed(prefix_len as int) as nat),
        forall|i: int| 0 <= i < r@.len() ==> is_nop_len(#[trigger] r@[i]),
        total_len(r@) == pad_needed(prefix_len as int),
{
    let need: u64 = (CACHE_LINE - (prefix_len % CACHE_LINE + BARRIER_LEN) % CACHE_LINE) % CACHE_LINE;
    assert(need == pad_needed(prefix_len as int)) by (nonlinear_arith)
        requires
            need == (64 - (prefix_len % 64 + 3) % 64) % 64,
    ;
    let mut r: Vec<u8> = Vec::new();
    let mut left: u64 = need;
    push_nops(&mut r, &mut left, 15);
    push_nops(&mut r, &mut left, 4);
    push_nops(&mut r, &mut left, 1);
    proof {
        assert(r@ =~= greedy_plan(need as nat));
        lemma_greedy_total(need as nat);
    }
    r
}

proof fn lemma_repeat_total(n: nat, len: u8)
    ensures
        total_len(repeat_len(n, len)) == n * len,
        forall|i: int| 0 <= i < n ==> #[trigger] repeat_len(n, len)[i] == len,
    decreases n,
{
    if n > 0 {
        lemma_repeat_total((n - 1) as nat, len);
        assert(repeat_len(n, len).drop_last() =~= repeat_len((n - 1) as nat, len));
        assert(repeat_len(n, len).last() == len);
        let m = (n - 1) as nat;
        assert(total_len(repeat_len(n, len)) == total_len(repeat_len(m, len)) + len);
        assert(n * len == m * len + len) by (nonlinear_arith)
            requires
                m + 1 == n,
        ;
    } else {
        assert(repeat_len(n, len).len() == 0);
    }
}

proof fn lemma_total_concat(a: Seq<u8>, b: Seq<u8>)
    ensures
        total_len(a + b) == total_len(a) + total_len(b),
    decreases b.len(),
{
    if b.len() == 0 {
        assert(a + b =~= a);
    } else {
        lemma_total_concat(a, b.drop_last());
        assert((a + b).drop_last() =~= a + b.drop_last());
    }
}

proof fn lemma_greedy_total(need: nat)
    ensures
        total_len(greedy_plan(need)) == need,
        forall|i: int| 0 <= i < greedy_plan(need).len() ==> is_nop_len(#[trigger] greedy_plan(need)[i]),
{
    let a = repeat_len(need / 15, 15);
    let b = repeat_len((need % 15) / 4, 4);
    let c = repeat_len(need % 15 % 4, 1);
    lemma_repeat_total(need / 15, 15);
    lemma_repeat_total((need % 15) / 4, 4);
    lemma_repeat_total(need % 15 % 4, 1);
    lemma_total_concat(a, b);
    lemma_total_concat(a + b, c);
    assert(need == (need / 15) * 15 + ((need % 15) / 4) * 4 + need % 15 % 4) by (nonlinear_arith);
    let g = greedy_plan(need);
    assert forall|i: int| 0 <= i < g.len() implies is_nop_len(#[trigger] g[i]) by {
        if i < a.len() {
            assert(g[i] == a[i]);
        } else if i < a.len() + b.len() {
            assert(g[i] == b[i - a.len()]);
        } else {
            assert(g[i] == c[i - a.len() - b.len()]);
        }
    }
}

/// Appends `len`-byte no-operations while at least `len` bytes are left.
fn push_nops(r: &mut Vec<u8>, left: &mut u64, len: u8)
    requires
        len > 0,
    ensures
        final(r)@ == old(r)@ + repeat_len((*old(left) / (len as u64)) as nat, len),
        *final(left) == *old(left) % (len as u64),
{
    let ghost k: nat = 0;
    while *left >= len as u64
        invariant
            len > 0,
            *old(left) == k * len + *left,
            r@ == old(r)@ + repeat_len(k, len),
        decreases *left,
    {
        r.push(len);
        *left = *left - len as u64;
        proof {
            assert(r@ =~= old(r)@ + repeat_len(k + 1, len));
            assert((k + 1) * len == k * len + len) by (nonlinear_arith);
            k = k + 1;
        }
    }
    proof {
        lemma_fundamental_div_mod_converse(*old(left) as int, len as int, k as int, *left as int);
    }
}

/// The encoding of one no-operation of an available length.
pub fn nop_bytes(len: u8) -> (r: Vec<u8>)
    requires
        is_nop_len(len),
    ensures
        r@ == nop_encoding(len),
        r@.len() == len,
{
    let r = if len == 15 {
        vec![0x66u8, 0x66, 0x66, 0x66, 0x66, 0x66, 0x2e, 0x0f, 0x1f, 0x84, 0x00, 0x00, 0x00, 0x00, 0x00]
    } else if len == 4 {
        vec![0x0fu8, 0x1f, 0x40, 0x00]
    } else {
        vec![0x90u8]
    };
    assert(r@ =~= nop_encoding(len));
    r
}

proof fn lemma_nops_len(s: Seq<u8>)
    requires
        forall|i: int| 0 <= i < s.len() ==> is_nop_len(#[trigger] s[i]),
    ensures
        nops_bytes(s).len() == total_len(s),
    decreases s.len(),
{
    if s.len() > 0 {
        let t = s.drop_last();
        assert forall|i: int| 0 <= i < t.len() implies is_nop_len(#[trigger] t[i]) by {
            assert(t[i] == s[i]);
        }
        lemma_nops_len(t);
        assert(is_nop_len(s[s.len() - 1]));
    }
}

/// The bytes of a sequence of no-operations, in order.
pub fn padding_bytes(plan: &Vec<u8>) -> (r: Vec<u8>)
    requires
        forall|i: int| 0 <= i < plan@.len() ==> is_nop_len(#[trigger] plan@[i]),
    ensures
        r@ == nops_bytes(plan@),
        r@.len() == total_len(plan@),
{
    let mut r: Vec<u8> = Vec::new();
    let mut k: usize = 0;
    while k < plan.len()
        invariant
            0 <= k <= plan@.len(),
            forall|i: int| 0 <= i < plan@.len() ==> is_nop_len(#[trigger] plan@[i]),
            r@ == nops_bytes(plan@.take(k as int)),
        decreases plan@.len() - k,
    {
        let mut nop = nop_bytes(plan[k]);
        let ghost prev = r@;
        r.append(&mut nop);
        assert(plan@.take(k as int + 1).drop_last() =~= plan@.take(k as int));
        assert(r@ =~= nops_bytes(plan@.take(k as int + 1)));
        k = k + 1;
    }
    assert(plan@.take(k as int) =~= plan@);
    proof {
        lemma_nops_len(plan@);
    }
    r
}

/// A label that a region body defines.
#[derive(Clone, Copy, Debug, PartialEq, Eq, Structural)]
pub enum Label {
    /// Where the branch under test goes.
    BranchTarget,
    /// The end of the region; control must reach it.
    End,
}

/// The padding and body offset of a region, as the builder lays it out.
pub struct RegionPlan {
    /// No-operation bytes placed between the preamble and the barrier.
    pub padding: Vec<u8>,
    /// Offset of the body's first byte from the start of the region.
    pub body_offset: u64,
}

/// Lays out a region whose preamble takes `prefix_len` bytes, given
/// `labels`, the labels that the caller reports its body defines. Fails with
/// an assembly error unless that list holds both the branch target and the
/// end label. With `aligned`, no-operations pad the preamble so that the
/// body starts on a cache-line boundary; without it, the body follows the
/// barrier directly.
pub fn plan_region(prefix_len: u64, aligned: bool, labels: &Vec<Label>) -> (r: Result<RegionPlan, HarnessError>)
    requires
        prefix_len <= u64::MAX - CACHE_LINE - BARRIER_LEN,
    ensures
        !(labels@.contains(Label::BranchTarget) && labels@.contains(Label::End)) <==> r is Err,
        r is Err ==> r->Err_0 == HarnessError::Assembly,
        r is Ok && aligned ==> (exists|plan: Seq<u8>|
            (forall|i: int| 0 <= i < plan.len() ==> is_nop_len(#[trigger] plan[i]))
            && total_len(plan) == pad_needed(prefix_len as int)
            && r->Ok_0.padding@ == nops_bytes(plan)),
        r is Ok && aligned ==> r->Ok_0.body_offset == body_offset(prefix_len as int),
        r is Ok && aligned ==> r->Ok_0.padding@.len() == pad_needed(prefix_len as int),
        r is Ok && !aligned ==> r->Ok_0.padding@.len() == 0,
        r is Ok && !aligned ==> r->Ok_0.body_offset == prefix_len + BARRIER_LEN,
{
    check_labels(labels)?;
    if aligned {
        let plan = padding_plan(prefix_len);
        let padding = padding_bytes(&plan);
        let body_offset = prefix_len + padding.len() as u64 + BARRIER_LEN;
        Ok(RegionPlan { padding, body_offset })
    } else {
        Ok(RegionPlan { padding: Vec::new(), body_offset: prefix_len + BARRIER_LEN })
    }
}

/// Succeeds exactly when `labels` holds both the branch target and the end
/// label.
pub fn check_labels(labels: &Vec<Label>) -> (r: Result<(), HarnessError>)
    ensures
        r is Ok <==> labels@.contains(Label::BranchTarget) && labels@.contains(Label::End),
        r is Err ==> r->Err_0 == HarnessError::Assembly,
{
    let mut has_target = false;
    let mut has_end = false;
    let mut k: usize = 0;
    while k < labels.len()
        invariant
            0 <= k <= labels@.len(),
            has_target <==> labels@.take(k as int).contains(Label::BranchTarget),
            has_end <==> labels@.take(k as int).contains(Label::End),
        decreases labels@.len() - k,
    {
        let l = labels[k];
        proof {
            let p = labels@.take(k as int);
            let t = labels@.take(k as int + 1);
            assert(t =~= p.push(l));
            assert forall|y: Label| #[trigger] t.contains(y) <==> p.contains(y) || y == l by {
                if t.contains(y) {
                    let i = choose|i: int| 0 <= i < t.len() && t[i] == y;
                    if i < p.len() {
                        assert(p[i] == y);
                    }
                }
                if p.contains(y) {
                    let i = choose|i: int| 0 <= i < p.len() && p[i] == y;
                    assert(t[i] == y);
                }
                if y == l {
                    assert(t[k as int] == y);
                }
            }
        }
        match l {
            Label::BranchTarget => has_target = true,
            Label::End => has_end = true,
        }
        k = k + 1;
    }
    assert(labels@.take(k as int) =~= labels@);
    if has_target && has_end {
        Ok(())
    } else {
        Err(HarnessError::Assembly)
    }
}

/// Aligned regions: wherever the region is placed on a cache-line boundary,
/// and whatever follows in the body, the body's first byte lies on a
/// cache-line boundary.
pub proof fn lemma_body_entry_aligned(base: int, prefix_len: int)
    requires
        base >= 0,
        prefix_len >= 0,
        base % (CACHE_LINE as int) == 0,
    ensures
        (base + body_offset(prefix_len)) % (CACHE_LINE as int) == 0,
{
    assert((base + prefix_len + (64 - (prefix_len + 3) % 64) % 64 + 3) % 64 == 0) by (nonlinear_arith)
        requires
            base % 64 == 0,
            base >= 0,
            prefix_len >= 0,
    ;
}

} // verus!

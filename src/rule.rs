use vstd::prelude::*;

verus! {

/// The block appended after a step whose first deleted symbol is `lead`.
pub open spec fn production(lead: bool) -> Seq<bool> {
    if lead {
        seq![true, true, false, true]
    } else {
        seq![false, false]
    }
}

/// One step of the tag system; a sequence shorter than three symbols is left as it is.
pub open spec fn step(s: Seq<bool>) -> Seq<bool> {
    if s.len() < 3 {
        s
    } else {
        s.skip(3) + production(s[0])
    }
}

/// The sequence after `n` steps.
pub open spec fn run(s: Seq<bool>, n: nat) -> Seq<bool>
    decreases n,
{
    if n == 0 {
        s
    } else {
        run(step(s), (n - 1) as nat)
    }
}

/// Within `n` attempted steps, the number of steps taken before one finds fewer
/// than three symbols; `None` when all `n` go through.
pub open spec fn halt_at(s: Seq<bool>, n: nat) -> Option<nat>
    decreases n,
{
    if n == 0 {
        None
    } else if s.len() < 3 {
        Some(0)
    } else {
        match halt_at(step(s), (n - 1) as nat) {
            Some(k) => Some(k + 1),
            None => None,
        }
    }
}

/// The expansion of one compressed symbol.
pub open spec fn expand(b: bool) -> Seq<bool> {
    seq![b, false, false]
}

/// The expansion of a compressed list: each symbol followed by two zeros.
pub open spec fn decompress(c: Seq<bool>) -> Seq<bool>
    decreases c.len(),
{
    if c.len() == 0 {
        Seq::empty()
    } else {
        decompress(c.drop_last()) + expand(c.last())
    }
}

} // verus!

verus! {

/// A step changes the length by at most one; a halted sequence is left unchanged.
pub proof fn lemma_step_len(s: Seq<bool>)
    ensures
        s.len() < 3 ==> step(s) == s,
        s.len() >= 3 ==> s.len() - 1 <= step(s).len() <= s.len() + 1,
{
}

/// Running `a` steps and then `b` more is running `a + b` steps.
pub proof fn lemma_run_add(s: Seq<bool>, a: nat, b: nat)
    ensures
        run(run(s, a), b) == run(s, a + b),
    decreases a,
{
    if a > 0 {
        lemma_run_add(step(s), (a - 1) as nat, b);
        assert((a - 1) as nat + b == (a + b - 1) as nat);
    }
}

/// Where none of the first `a` steps halts, the halting point within `a + b`
/// attempts is that of the sequence after `a` steps, shifted by `a`.
pub proof fn lemma_halt_add(s: Seq<bool>, a: nat, b: nat)
    requires
        halt_at(s, a) is None,
    ensures
        halt_at(s, a + b) == (match halt_at(run(s, a), b) {
            Some(k) => Some(k + a),
            None => None::<nat>,
        }),
    decreases a,
{
    if a > 0 {
        lemma_halt_add(step(s), (a - 1) as nat, b);
        assert((a - 1) as nat + b == (a + b - 1) as nat);
    }
}

/// A run never grows the sequence by more than one symbol per step.
pub proof fn lemma_run_len_upper(s: Seq<bool>, n: nat)
    ensures
        run(s, n).len() <= s.len() + n,
    decreases n,
{
    if n > 0 {
        lemma_step_len(s);
        lemma_run_len_upper(step(s), (n - 1) as nat);
    }
}

/// With at least `n + 2` symbols, none of `n` steps halts, and each removes at most one symbol.
pub proof fn lemma_run_len_lower(s: Seq<bool>, n: nat)
    requires
        s.len() >= n + 2,
    ensures
        run(s, n).len() >= s.len() - n,
        halt_at(s, n) is None,
    decreases n,
{
    if n > 0 {
        lemma_step_len(s);
        lemma_run_len_lower(step(s), (n - 1) as nat);
    }
}

} // verus!

verus! {

/// A sequence of fewer than three symbols halts at once: any run leaves it as it
/// is, and any positive number of attempts halts after zero steps.
pub proof fn lemma_halted(s: Seq<bool>, n: nat)
    requires
        s.len() < 3,
    ensures
        run(s, n) == s,
        n > 0 ==> halt_at(s, n) == Some(0nat),
    decreases n,
{
    if n > 0 {
        lemma_halted(s, (n - 1) as nat);
    }
}

} // verus!

verus! {

/// Expanding one more compressed symbol appends its block.
pub proof fn lemma_decompress_push(c: Seq<bool>, i: int)
    requires
        0 <= i < c.len(),
    ensures
        decompress(c.take(i + 1)) == decompress(c.take(i)) + expand(c[i]),
{
    assert(c.take(i + 1).drop_last() =~= c.take(i));
}

/// The expansion has three symbols for each compressed one.
pub proof fn lemma_decompress_len(c: Seq<bool>)
    ensures
        decompress(c).len() == 3 * c.len(),
    decreases c.len(),
{
    if c.len() > 0 {
        lemma_decompress_len(c.drop_last());
    }
}

} // verus!

verus! {

/// The symbols that the steps led by `leads` append, in order.
pub open spec fn outputs(leads: Seq<bool>) -> Seq<bool>
    decreases leads.len(),
{
    if leads.len() == 0 {
        Seq::empty()
    } else {
        outputs(leads.drop_last()) + production(leads.last())
    }
}

/// The leading symbols of the first `t` blocks of three.
pub open spec fn leads(s: Seq<bool>, t: nat) -> Seq<bool> {
    Seq::new(t, |i: int| s[3 * i])
}

/// On a sequence of at least `3 * t` symbols, `t` steps delete the first `3 * t`
/// symbols and append what the leads of those blocks produce.
pub proof fn lemma_run_batch(s: Seq<bool>, t: nat)
    requires
        s.len() >= 3 * t,
    ensures
        run(s, t) == s.skip(3 * t as int) + outputs(leads(s, t)),
    decreases t,
{
    if t == 0 {
        assert(s.skip(0) =~= s);
        assert(s.skip(0) + outputs(leads(s, 0)) =~= s);
    } else {
        let u = (t - 1) as nat;
        lemma_run_batch(s, u);
        lemma_run_add(s, u, 1);
        let x = run(s, u);
        assert(run(x, 1) == run(step(x), 0));
        assert(x[0] == s[3 * u as int]);
        assert(leads(s, t).drop_last() =~= leads(s, u));
        assert(step(x) =~= s.skip(3 * t as int) + outputs(leads(s, t)));
        assert(u + 1 == t);
    }
}

/// Each lead appends two or four symbols.
pub proof fn lemma_outputs_len(l: Seq<bool>)
    ensures
        2 * l.len() <= outputs(l).len() <= 4 * l.len(),
    decreases l.len(),
{
    if l.len() > 0 {
        lemma_outputs_len(l.drop_last());
    }
}

} // verus!

use vstd::prelude::*;
use crate::keyed::views;

verus! {

broadcast use vstd::string::group_string_axioms;

/// The character of a decimal digit.
pub open spec fn digit_char(d: nat) -> char {
    if d == 0 { '0' } else if d == 1 { '1' } else if d == 2 { '2' } else if d == 3 { '3' }
    else if d == 4 { '4' } else if d == 5 { '5' } else if d == 6 { '6' } else if d == 7 { '7' }
    else if d == 8 { '8' } else { '9' }
}

/// Decimal representation of a natural number, without leading zeros.
pub open spec fn decimal(i: nat) -> Seq<char>
    decreases i,
{
    if i < 10 {
        seq![digit_char(i)]
    } else {
        decimal(i / 10).push(digit_char(i % 10))
    }
}

fn digit_str(d: usize) -> (r: &'static str)
    requires
        d < 10,
    ensures
        r@ == seq![digit_char(d as nat)],
{
    if d == 0 { proof { reveal_strlit("0"); } "0" }
    else if d == 1 { proof { reveal_strlit("1"); } "1" }
    else if d == 2 { proof { reveal_strlit("2"); } "2" }
    else if d == 3 { proof { reveal_strlit("3"); } "3" }
    else if d == 4 { proof { reveal_strlit("4"); } "4" }
    else if d == 5 { proof { reveal_strlit("5"); } "5" }
    else if d == 6 { proof { reveal_strlit("6"); } "6" }
    else if d == 7 { proof { reveal_strlit("7"); } "7" }
    else if d == 8 { proof { reveal_strlit("8"); } "8" }
    else { proof { reveal_strlit("9"); } "9" }
}

/// Appends the decimal digits of `i` to `s`.
pub fn append_decimal(s: &mut String, i: usize)
    ensures
        final(s)@ == old(s)@ + decimal(i as nat),
    decreases i,
{
    if i >= 10 {
        append_decimal(s, i / 10);
    }
    s.append(digit_str(i % 10));
    assert(decimal(i as nat) =~= if i < 10 { seq![digit_char(i as nat)] } else { decimal((i / 10) as nat) + seq![digit_char((i % 10) as nat)] });
}

/// Whether two strings hold the same characters.
pub fn str_eq(a: &str, b: &str) -> (r: bool)
    ensures
        r == (a@ == b@),
{
    let x = a.to_string();
    let y = b.to_string();
    x == y
}


/// The number that a string of decimal digits denotes, most significant digit first.
pub open spec fn digits_value(s: Seq<char>) -> int
    decreases s.len(),
{
    if s.len() == 0 {
        0
    } else {
        digits_value(s.drop_last()) * 10 + (s.last() as int - '0' as int)
    }
}

/// Digits are written with their standard characters: digit `d` is the character whose code
/// is that of `'0'` plus `d`.
pub proof fn law_digit_codes(d: nat)
    requires
        d < 10,
    ensures
        digit_char(d) as int == '0' as int + d,
{
}

/// The decimal form of a number is the usual one: it is made of the characters `'0'` to
/// `'9'`, reads back as the number, and starts with `'0'` only for zero.
pub proof fn law_decimal_reads_back(i: nat)
    ensures
        digits_value(decimal(i)) == i,
        decimal(i).len() > 0,
        forall|k: int| 0 <= k < decimal(i).len() ==> '0' as int <= #[trigger] decimal(i)[k] as int <= '9' as int,
        decimal(i)[0] == '0' ==> i == 0,
    decreases i,
{
    if i < 10 {
        law_digit_codes(i);
        assert(decimal(i).drop_last() =~= Seq::<char>::empty());
        assert(digits_value(Seq::<char>::empty()) == 0);
        assert(digits_value(decimal(i)) == digits_value(decimal(i).drop_last()) * 10 + (decimal(i).last() as int - '0' as int));
    } else {
        law_decimal_reads_back(i / 10);
        law_digit_codes(i % 10);
        let s = decimal(i);
        assert(s.drop_last() =~= decimal(i / 10));
        assert((i / 10) * 10 + i % 10 == i) by (nonlinear_arith);
        assert(s.last() == digit_char(i % 10));
        assert(digits_value(s) == digits_value(s.drop_last()) * 10 + (s.last() as int - '0' as int));
        assert forall|k: int| 0 <= k < s.len() implies '0' as int <= #[trigger] s[k] as int <= '9' as int by {
            if k < s.len() - 1 {
                assert(s[k] == decimal(i / 10)[k]);
            }
        }
        assert(s[0] == decimal(i / 10)[0]);
    }
}

/// Each natural number has a nonempty decimal form, of length one exactly below ten.
pub proof fn lemma_decimal_len(i: nat)
    ensures
        decimal(i).len() >= 1,
        decimal(i).len() == 1 <==> i < 10,
    decreases i,
{
    if i >= 10 {
        lemma_decimal_len(i / 10);
    }
}

/// Distinct numbers have distinct decimal forms.
pub proof fn lemma_decimal_injective(a: nat, b: nat)
    requires
        decimal(a) == decimal(b),
    ensures
        a == b,
    decreases a,
{
    lemma_decimal_len(a);
    lemma_decimal_len(b);
    if a >= 10 && b >= 10 {
        let da = decimal(a);
        let db = decimal(b);
        assert(da.last() == digit_char(a % 10));
        assert(db.last() == digit_char(b % 10));
        assert(da.drop_last() =~= decimal(a / 10));
        assert(db.drop_last() =~= decimal(b / 10));
        lemma_decimal_injective(a / 10, b / 10);
    } else if a < 10 && b < 10 {
        assert(decimal(a)[0] == digit_char(a));
        assert(decimal(b)[0] == digit_char(b));
    }
}

/// The prefix shared by the names of generated agents.
pub open spec fn agent_prefix() -> Seq<char> {
    seq!['a', 'g', 'e', 'n', 't', '-']
}

/// The name of the `i`-th agent of a generated topology: `agent-` and `i` in decimal.
pub open spec fn agent_name(i: nat) -> Seq<char> {
    agent_prefix() + decimal(i)
}

/// The name of the `i`-th generated agent is `agent-` followed by the usual decimal digits of
/// `i`: after the six characters of `agent-` come digits that read back as `i`.
pub proof fn law_agent_name_reads_back(i: nat)
    ensures
        agent_name(i).take(6) == seq!['a', 'g', 'e', 'n', 't', '-'],
        agent_name(i).skip(6) == decimal(i),
        digits_value(agent_name(i).skip(6)) == i,
{
    assert(agent_name(i).take(6) =~= seq!['a', 'g', 'e', 'n', 't', '-']);
    assert(agent_name(i).skip(6) =~= decimal(i));
    law_decimal_reads_back(i);
}

/// Distinct indices give distinct agent names.
pub proof fn lemma_agent_name_injective(a: nat, b: nat)
    ensures
        agent_name(a) == agent_name(b) <==> a == b,
{
    if agent_name(a) == agent_name(b) {
        let la = agent_name(a);
        let lb = agent_name(b);
        assert(la.subrange(6, la.len() as int) =~= decimal(a));
        assert(lb.subrange(6, lb.len() as int) =~= decimal(b));
        lemma_decimal_injective(a, b);
    }
}

/// The name of the `i`-th agent of a generated topology.
pub fn agent_name_string(i: usize) -> (r: String)
    ensures
        r@ == agent_name(i as nat),
{
    proof {
        reveal_strlit("agent-");
    }
    let mut s = String::from_str("agent-");
    assert(s@ =~= agent_prefix());
    append_decimal(&mut s, i);
    s
}

/// Strict lexicographic order on character sequences, comparing code points.
pub open spec fn lex_lt(a: Seq<char>, b: Seq<char>) -> bool
    decreases a.len(),
{
    if b.len() == 0 {
        false
    } else if a.len() == 0 {
        true
    } else if a[0] != b[0] {
        (a[0] as int) < (b[0] as int)
    } else {
        lex_lt(a.drop_first(), b.drop_first())
    }
}

/// Lexicographic order, allowing equality.
pub open spec fn lex_le(a: Seq<char>, b: Seq<char>) -> bool {
    !lex_lt(b, a)
}

/// No sequence comes before itself.
pub proof fn lemma_lex_irreflexive(a: Seq<char>)
    ensures
        !lex_lt(a, a),
    decreases a.len(),
{
    if a.len() > 0 {
        lemma_lex_irreflexive(a.drop_first());
    }
}

/// Lexicographic order is transitive.
pub proof fn lemma_lex_transitive(a: Seq<char>, b: Seq<char>, c: Seq<char>)
    requires
        lex_lt(a, b),
        lex_lt(b, c),
    ensures
        lex_lt(a, c),
    decreases a.len(),
{
    if a.len() > 0 && b.len() > 0 && c.len() > 0 {
        if a[0] == b[0] && b[0] == c[0] {
            lemma_lex_transitive(a.drop_first(), b.drop_first(), c.drop_first());
        }
    }
}

/// Of two distinct sequences, one comes before the other.
pub proof fn lemma_lex_total(a: Seq<char>, b: Seq<char>)
    requires
        a != b,
    ensures
        lex_lt(a, b) || lex_lt(b, a),
    decreases a.len(),
{
    if a.len() > 0 && b.len() > 0 && a[0] == b[0] {
        if a.drop_first() == b.drop_first() {
            assert(a =~= seq![a[0]] + a.drop_first());
            assert(b =~= seq![b[0]] + b.drop_first());
        }
        lemma_lex_total(a.drop_first(), b.drop_first());
    } else if a.len() == 0 && b.len() == 0 {
        assert(a =~= b);
    }
}

/// `lex_le` is transitive.
pub proof fn lemma_lex_le_transitive(a: Seq<char>, b: Seq<char>, c: Seq<char>)
    requires
        lex_le(a, b),
        lex_le(b, c),
    ensures
        lex_le(a, c),
{
    if lex_lt(c, a) {
        if a == b {
        } else if b == c {
        } else {
            lemma_lex_total(a, b);
            lemma_lex_total(b, c);
            lemma_lex_transitive(a, b, c);
            lemma_lex_transitive(c, a, c);
            lemma_lex_irreflexive(c);
        }
    }
}

/// Whether `a` comes strictly before `b` in lexicographic order.
pub fn str_lt(a: &str, b: &str) -> (r: bool)
    ensures
        r == lex_lt(a@, b@),
{
    let la = a.unicode_len();
    let lb = b.unicode_len();
    let mut i: usize = 0;
    assert(a@.skip(0) =~= a@);
    assert(b@.skip(0) =~= b@);
    while i < la && i < lb
        invariant
            la == a@.len(),
            lb == b@.len(),
            i <= la,
            i <= lb,
            lex_lt(a@, b@) == lex_lt(a@.skip(i as int), b@.skip(i as int)),
        decreases la - i,
    {
        let ca = a.get_char(i);
        let cb = b.get_char(i);
        if ca != cb {
            assert(ca as int == (ca as u32) as int);
            assert(cb as int == (cb as u32) as int);
            return (ca as u32) < (cb as u32);
        }
        assert(a@.skip(i as int).drop_first() =~= a@.skip(i + 1));
        assert(b@.skip(i as int).drop_first() =~= b@.skip(i + 1));
        i = i + 1;
    }
    i < lb
}


/// A sequence in nondecreasing lexicographic order.
pub open spec fn lex_sorted(s: Seq<Seq<char>>) -> bool {
    forall|i: int, j: int| 0 <= i < j < s.len() ==> lex_le(#[trigger] s[i], #[trigger] s[j])
}

/// The same strings as `v`, in nondecreasing lexicographic order.
pub fn sort_strings(v: Vec<String>) -> (r: Vec<String>)
    ensures
        lex_sorted(views(r@)),
        views(r@).to_multiset() == views(v@).to_multiset(),
{
    broadcast use vstd::seq_lib::to_multiset_insert, vstd::seq_lib::to_multiset_build;

    let mut out: Vec<String> = Vec::new();
    let mut i: usize = 0;
    assert(views(v@).take(0) =~= Seq::<Seq<char>>::empty());
    assert(views(out@) =~= Seq::<Seq<char>>::empty());
    while i < v.len()
        invariant
            i <= v.len(),
            lex_sorted(views(out@)),
            views(out@).to_multiset() == views(v@).take(i as int).to_multiset(),
        decreases v.len() - i,
    {
        let x = v[i].clone();
        let mut pos: usize = 0;
        while pos < out.len() && str_lt(out[pos].as_str(), x.as_str())
            invariant
                pos <= out.len(),
                forall|k: int| 0 <= k < pos ==> lex_lt(#[trigger] views(out@)[k], x@),
            decreases out.len() - pos,
        {
            assert(views(out@)[pos as int] == out@[pos as int]@);
            pos = pos + 1;
        }
        let ghost old_out = views(out@);
        out.insert(pos, x);
        proof {
            let no = views(out@);
            assert(no =~= old_out.insert(pos as int, x@));
            assert(views(v@).take(i + 1) =~= views(v@).take(i as int).push(x@));
            vstd::seq_lib::to_multiset_insert(old_out, pos as int, x@);
            vstd::seq_lib::to_multiset_build(views(v@).take(i as int), x@);
            assert(no.to_multiset() == old_out.to_multiset().insert(x@));
            assert(views(v@).take(i as int).push(x@).to_multiset() == views(v@).take(i as int).to_multiset().insert(x@));
            assert forall|a: int, b: int| 0 <= a < b < no.len() implies lex_le(#[trigger] no[a], #[trigger] no[b]) by {
                if b < pos {
                    assert(no[a] == old_out[a] && no[b] == old_out[b]);
                } else if b == pos {
                    assert(no[a] == old_out[a]);
                    assert(lex_lt(old_out[a], x@));
                    if lex_lt(x@, old_out[a]) {
                        lemma_lex_transitive(x@, old_out[a], x@);
                        lemma_lex_irreflexive(x@);
                    }
                } else if a < pos {
                    assert(no[a] == old_out[a] && no[b] == old_out[b - 1]);
                } else if a == pos {
                    assert(no[b] == old_out[b - 1]);
                    assert(pos < old_out.len());
                    assert(!lex_lt(old_out[pos as int], x@));
                    if pos < b - 1 {
                        assert(lex_le(old_out[pos as int], old_out[b - 1]));
                    } else {
                        lemma_lex_irreflexive(old_out[pos as int]);
                    }
                    lemma_lex_le_transitive(x@, old_out[pos as int], old_out[b - 1]);
                } else {
                    assert(no[a] == old_out[a - 1] && no[b] == old_out[b - 1]);
                }
            }
        }
        i = i + 1;
    }
    assert(views(v@).take(v.len() as int) =~= views(v@));
    out
}

} // verus!

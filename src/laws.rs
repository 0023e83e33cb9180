//! Properties that relate several parses, or a parse and registration.
use vstd::prelude::*;
use crate::arguments::{
    Arguments, sorted_order, usage_header, distinct, find, flag_tokens, is_flag_token, lemma_find, parse_spec, registered, run,
    slot_index, value_tokens, Outcome,
};
use crate::convert::{all_digits, bool_of, char_of, digits_value, i32_of, i64_of};
use crate::target::Slot;
use crate::order::{lemma_sorted_unique, lex_lt, strictly_sorted};

verus! {

/// The token `--n`.
pub open spec fn flag_token(n: Seq<char>) -> Seq<char> {
    seq!['-', '-'] + n
}

pub open spec fn digit_char(d: int) -> char {
    if d == 0 { '0' }
    else if d == 1 { '1' }
    else if d == 2 { '2' }
    else if d == 3 { '3' }
    else if d == 4 { '4' }
    else if d == 5 { '5' }
    else if d == 6 { '6' }
    else if d == 7 { '7' }
    else if d == 8 { '8' }
    else { '9' }
}

/// The decimal digits of `v`, without leading zeros.
pub open spec fn decimal(v: nat) -> Seq<char>
    decreases v,
{
    if v < 10 {
        seq![digit_char(v as int)]
    } else {
        decimal(v / 10).push(digit_char((v % 10) as int))
    }
}

/// The usual text of a value: decimal for integers, `true` or `false`, the
/// text itself.
pub open spec fn text_of(v: Slot) -> Seq<char> {
    match v {
        Slot::Flag(_) => Seq::empty(),
        Slot::Bool(b) => if b { seq!['t', 'r', 'u', 'e'] } else { seq!['f', 'a', 'l', 's', 'e'] },
        Slot::Usize(x) => decimal(x as nat),
        Slot::I64(x) => if x < 0 { seq!['-'] + decimal((-x) as nat) } else { decimal(x as nat) },
        Slot::U32(x) => decimal(x as nat),
        Slot::U64(x) => decimal(x as nat),
        Slot::I32(x) => if x < 0 { seq!['-'] + decimal((-x) as nat) } else { decimal(x as nat) },
        Slot::Char(c) => seq![c],
        Slot::Text(t) => t,
    }
}

pub open spec fn same_kind(a: Slot, b: Slot) -> bool {
    match (a, b) {
        (Slot::Flag(_), Slot::Flag(_)) => true,
        (Slot::Bool(_), Slot::Bool(_)) => true,
        (Slot::Usize(_), Slot::Usize(_)) => true,
        (Slot::I64(_), Slot::I64(_)) => true,
        (Slot::U32(_), Slot::U32(_)) => true,
        (Slot::U64(_), Slot::U64(_)) => true,
        (Slot::I32(_), Slot::I32(_)) => true,
        (Slot::Char(_), Slot::Char(_)) => true,
        (Slot::Text(_), Slot::Text(_)) => true,
        _ => false,
    }
}

proof fn lemma_decimal(v: nat)
    ensures
        decimal(v).len() > 0,
        all_digits(decimal(v)),
        digits_value(decimal(v)) == v,
    decreases v,
{
    let d = (v % 10) as int;
    assert(digit_char(d) as int - '0' as int == d) by {
        assert(0 <= d < 10);
    }
    if v < 10 {
        let t = decimal(v);
        assert(t.drop_last() =~= Seq::<char>::empty());
        assert(d == v);
        assert(t.last() == digit_char(d));
        assert(digits_value(t) == digits_value(t.drop_last()) * 10 + (t.last() as int - '0' as int));
    } else {
        lemma_decimal(v / 10);
        let s = decimal(v / 10);
        let t = decimal(v);
        assert(t.drop_last() =~= s);
        assert forall|i: int| 0 <= i < t.len() implies crate::convert::is_digit(#[trigger] t[i]) by {
            if i < s.len() {
                assert(t[i] == s[i]);
            }
        }
        assert(v == (v / 10) * 10 + v % 10);
        assert(t.last() == digit_char(d));
        assert(digits_value(t) == digits_value(s) * 10 + d);
    }
}

proof fn lemma_tokens_push(ts: Seq<Seq<char>>, t: Seq<char>)
    ensures
        flag_tokens(ts.push(t)) == (if is_flag_token(t) {
            flag_tokens(ts).push(t.skip(2))
        } else {
            flag_tokens(ts)
        }),
        value_tokens(ts.push(t)) == (if is_flag_token(t) {
            value_tokens(ts)
        } else {
            value_tokens(ts).push(t)
        }),
{
    assert(ts.push(t).drop_last() =~= ts);
}

proof fn lemma_flag_token(n: Seq<char>)
    ensures
        is_flag_token(flag_token(n)),
        flag_token(n).skip(2) == n,
{
    assert(flag_token(n).skip(2) =~= n);
}

/// Reading the usual text of a value gives the value back.
pub proof fn lemma_read_text(old_value: Slot, v: Slot)
    requires
        same_kind(old_value, v),
        !(v is Flag),
    ensures
        old_value.read(text_of(v)) == Some(v),
{
    match v {
        Slot::Usize(x) => {
            lemma_decimal(x as nat);
            assert(decimal(x as nat)[0] != '+');
        },
        Slot::I64(x) => {
            if x < 0 {
                let d = decimal((-x) as nat);
                lemma_decimal((-x) as nat);
                assert((seq!['-'] + d).drop_first() =~= d);
                assert(i64_of(seq!['-'] + d) == Some(x));
            } else {
                lemma_decimal(x as nat);
                assert(decimal(x as nat)[0] != '+' && decimal(x as nat)[0] != '-');
            }
        },
        Slot::U32(x) => {
            lemma_decimal(x as nat);
            assert(decimal(x as nat)[0] != '+');
        },
        Slot::U64(x) => {
            lemma_decimal(x as nat);
            assert(decimal(x as nat)[0] != '+');
        },
        Slot::I32(x) => {
            if x < 0 {
                let d = decimal((-x) as nat);
                lemma_decimal((-x) as nat);
                assert((seq!['-'] + d).drop_first() =~= d);
                assert(i32_of(seq!['-'] + d) == Some(x));
            } else {
                lemma_decimal(x as nat);
                assert(decimal(x as nat)[0] != '+' && decimal(x as nat)[0] != '-');
            }
        },
        Slot::Char(c) => {
            assert(char_of(seq![c]) == Some(c));
        },
        Slot::Bool(b) => {
            assert(bool_of(text_of(v)) == Some(b));
        },
        _ => {},
    }
}

/// Round trip: after `--n` and the usual text of a value of the binding's
/// type, the binding under `n` holds that value and no value token is left.
pub proof fn law_round_trip(names: Seq<Seq<char>>, slots: Seq<Slot>, n: Seq<char>, v: Slot)
    requires
        distinct(names),
        names.len() == slots.len(),
        find(names, n) >= 0,
        same_kind(slots[find(names, n)], v),
        !(v is Flag),
        !is_flag_token(text_of(v)),
    ensures
        parse_spec(names, slots, seq![flag_token(n), text_of(v)]) == (
            slots.update(find(names, n), v),
            Outcome::Leftover(1),
        ),
        value_tokens(seq![flag_token(n), text_of(v)]).len() == 1,
{
    let k = find(names, n);
    lemma_find(names, n);
    lemma_flag_token(n);
    lemma_read_text(slots[k], v);
    let ts = seq![flag_token(n), text_of(v)];
    lemma_tokens_push(seq![flag_token(n)], text_of(v));
    lemma_tokens_push(Seq::empty(), flag_token(n));
    assert(seq![flag_token(n)] =~= Seq::<Seq<char>>::empty().push(flag_token(n)));
    assert(ts =~= seq![flag_token(n)].push(text_of(v)));
    assert(flag_tokens(ts) =~= seq![n]);
    assert(value_tokens(ts) =~= seq![text_of(v)]);
    assert(run(names, slots.update(k, v), seq![n], seq![text_of(v)], 1, 1) == (
        slots.update(k, v),
        Outcome::Leftover(1),
    ));
}

/// The flag and value tokens of a short token list, built one token at a time.
proof fn lemma_tokens(ts: Seq<Seq<char>>)
    requires
        ts.len() > 0,
    ensures
        flag_tokens(ts) == flag_tokens(ts.drop_last()) + (if is_flag_token(ts.last()) {
            seq![ts.last().skip(2)]
        } else {
            Seq::empty()
        }),
        value_tokens(ts) == value_tokens(ts.drop_last()) + (if !is_flag_token(ts.last()) {
            seq![ts.last()]
        } else {
            Seq::empty()
        }),
{
    lemma_tokens_push(ts.drop_last(), ts.last());
    assert(ts.drop_last().push(ts.last()) =~= ts);
    assert(flag_tokens(ts.drop_last()).push(ts.last().skip(2)) =~= flag_tokens(ts.drop_last())
        + seq![ts.last().skip(2)]);
    assert(value_tokens(ts.drop_last()).push(ts.last()) =~= value_tokens(ts.drop_last())
        + seq![ts.last()]);
    assert(flag_tokens(ts.drop_last()) =~= flag_tokens(ts.drop_last()) + Seq::empty());
    assert(value_tokens(ts.drop_last()) =~= value_tokens(ts.drop_last()) + Seq::empty());
}

/// Order of flags does not matter: `--a u --b v` and `--b v --a u` leave the
/// bindings with the same values, when `a` and `b` are two different bound
/// names that each take a value, and `u` and `v` convert.
pub proof fn law_flag_order(
    names: Seq<Seq<char>>,
    slots: Seq<Slot>,
    a: Seq<char>,
    b: Seq<char>,
    u: Seq<char>,
    v: Seq<char>,
)
    requires
        distinct(names),
        names.len() == slots.len(),
        a != b,
        find(names, a) >= 0,
        find(names, b) >= 0,
        !(slots[find(names, a)] is Flag),
        !(slots[find(names, b)] is Flag),
        slots[find(names, a)].read(u) is Some,
        slots[find(names, b)].read(v) is Some,
        !is_flag_token(u),
        !is_flag_token(v),
    ensures
        parse_spec(names, slots, seq![flag_token(a), u, flag_token(b), v]).0 == parse_spec(
            names,
            slots,
            seq![flag_token(b), v, flag_token(a), u],
        ).0,
        parse_spec(names, slots, seq![flag_token(a), u, flag_token(b), v]).1 == Outcome::Leftover(2),
        parse_spec(names, slots, seq![flag_token(b), v, flag_token(a), u]).1 == Outcome::Leftover(2),
{
    let ka = find(names, a);
    let kb = find(names, b);
    lemma_find(names, a);
    lemma_find(names, b);
    lemma_flag_token(a);
    lemma_flag_token(b);
    let x = slots[ka].read(u)->Some_0;
    let y = slots[kb].read(v)->Some_0;
    let t1 = seq![flag_token(a), u, flag_token(b), v];
    let t2 = seq![flag_token(b), v, flag_token(a), u];
    lemma_tokens(t1);
    lemma_tokens(t1.drop_last());
    lemma_tokens(t1.drop_last().drop_last());
    lemma_tokens(t1.drop_last().drop_last().drop_last());
    lemma_tokens(t2);
    lemma_tokens(t2.drop_last());
    lemma_tokens(t2.drop_last().drop_last());
    lemma_tokens(t2.drop_last().drop_last().drop_last());
    assert(t1.drop_last().drop_last().drop_last().drop_last() =~= Seq::<Seq<char>>::empty());
    assert(t2.drop_last().drop_last().drop_last().drop_last() =~= Seq::<Seq<char>>::empty());
    assert(flag_tokens(t1) =~= seq![a, b]);
    assert(value_tokens(t1) =~= seq![u, v]);
    assert(flag_tokens(t2) =~= seq![b, a]);
    assert(value_tokens(t2) =~= seq![v, u]);
    let s1 = slots.update(ka, x);
    assert(s1[kb] == slots[kb]);
    assert(run(names, s1, seq![a, b], seq![u, v], 1, 1) == run(
        names,
        s1.update(kb, y),
        seq![a, b],
        seq![u, v],
        2,
        2,
    ));
    let s2 = slots.update(kb, y);
    assert(s2[ka] == slots[ka]);
    assert(run(names, s2, seq![b, a], seq![v, u], 1, 1) == run(
        names,
        s2.update(ka, x),
        seq![b, a],
        seq![v, u],
        2,
        2,
    ));
    assert(s1.update(kb, y) =~= s2.update(ka, x));
}

/// A presence flag takes no value token: after `--f --c t`, with `f` bound to
/// a presence flag and `c` to a binding that takes a value that `t` gives, both
/// are set and no value token is left.
pub proof fn law_flag_takes_no_value(
    names: Seq<Seq<char>>,
    slots: Seq<Slot>,
    f: Seq<char>,
    c: Seq<char>,
    t: Seq<char>,
)
    requires
        distinct(names),
        names.len() == slots.len(),
        find(names, f) >= 0,
        find(names, c) >= 0,
        slots[find(names, f)] is Flag,
        !(slots[find(names, c)] is Flag),
        slots[find(names, c)].read(t) is Some,
        !is_flag_token(t),
    ensures
        parse_spec(names, slots, seq![flag_token(f), flag_token(c), t]) == (
            slots.update(find(names, f), Slot::Flag(true)).update(
                find(names, c),
                slots[find(names, c)].read(t)->Some_0,
            ),
            Outcome::Leftover(1),
        ),
        value_tokens(seq![flag_token(f), flag_token(c), t]).len() == 1,
{
    let kf = find(names, f);
    let kc = find(names, c);
    lemma_find(names, f);
    lemma_find(names, c);
    lemma_flag_token(f);
    lemma_flag_token(c);
    let ts = seq![flag_token(f), flag_token(c), t];
    lemma_tokens(ts);
    lemma_tokens(ts.drop_last());
    lemma_tokens(ts.drop_last().drop_last());
    assert(ts.drop_last().drop_last().drop_last() =~= Seq::<Seq<char>>::empty());
    assert(flag_tokens(ts) =~= seq![f, c]);
    assert(value_tokens(ts) =~= seq![t]);
    let s1 = slots.update(kf, Slot::Flag(true));
    assert(kf != kc);
    assert(s1[kc] == slots[kc]);
    let s2 = s1.update(kc, slots[kc].read(t)->Some_0);
    assert(run(names, s1, seq![f, c], seq![t], 1, 0) == run(names, s2, seq![f, c], seq![t], 2, 1));
}

/// An unbound name is rejected, and nothing is written.
pub proof fn law_unknown_flag(names: Seq<Seq<char>>, slots: Seq<Slot>, n: Seq<char>)
    requires
        find(names, n) < 0,
    ensures
        parse_spec(names, slots, seq![flag_token(n)]) == (slots, Outcome::UnknownFlag(n)),
{
    lemma_flag_token(n);
    lemma_tokens(seq![flag_token(n)]);
    assert(seq![flag_token(n)].drop_last() =~= Seq::<Seq<char>>::empty());
    assert(flag_tokens(seq![flag_token(n)]) =~= seq![n]);
}

/// A flag that takes a value, given with no value token, fails with
/// `OutOfArgs`, and nothing is written.
pub proof fn law_out_of_values(names: Seq<Seq<char>>, slots: Seq<Slot>, n: Seq<char>)
    requires
        names.len() == slots.len(),
        find(names, n) >= 0,
        !(slots[find(names, n)] is Flag),
    ensures
        parse_spec(names, slots, seq![flag_token(n)]) == (slots, Outcome::OutOfArgs(n)),
{
    lemma_find(names, n);
    lemma_flag_token(n);
    lemma_tokens(seq![flag_token(n)]);
    assert(seq![flag_token(n)].drop_last() =~= Seq::<Seq<char>>::empty());
    assert(flag_tokens(seq![flag_token(n)]) =~= seq![n]);
    assert(value_tokens(seq![flag_token(n)]) =~= Seq::<Seq<char>>::empty());
}

/// A value token that no flag takes is handed back: after `e --f`, with `f`
/// bound to a presence flag, the flag is set and `e` is left over.
pub proof fn law_leftover(names: Seq<Seq<char>>, slots: Seq<Slot>, e: Seq<char>, f: Seq<char>)
    requires
        names.len() == slots.len(),
        find(names, f) >= 0,
        slots[find(names, f)] is Flag,
        !is_flag_token(e),
    ensures
        parse_spec(names, slots, seq![e, flag_token(f)]) == (
            slots.update(find(names, f), Slot::Flag(true)),
            Outcome::Leftover(0),
        ),
        value_tokens(seq![e, flag_token(f)]).skip(0) == seq![e],
{
    lemma_find(names, f);
    lemma_flag_token(f);
    let ts = seq![e, flag_token(f)];
    lemma_tokens(ts);
    lemma_tokens(ts.drop_last());
    assert(ts.drop_last().drop_last() =~= Seq::<Seq<char>>::empty());
    assert(flag_tokens(ts) =~= seq![f]);
    assert(value_tokens(ts) =~= seq![e]);
    assert(value_tokens(ts).skip(0) =~= seq![e]);
    let k = find(names, f);
    assert(run(names, slots, seq![f], seq![e], 0, 0) == run(
        names,
        slots.update(k, Slot::Flag(true)),
        seq![f],
        seq![e],
        1,
        0,
    ));
}

/// Registering a name a second time adds no binding: the second registration
/// lands in the place of the first, so only the second target stays bound.
pub proof fn law_reregistration(names: Seq<Seq<char>>, n: Seq<char>)
    requires
        distinct(names),
    ensures
        registered(registered(names, n), n) == registered(names, n),
        find(registered(names, n), n) == slot_index(names, n),
        slot_index(registered(names, n), n) == slot_index(names, n),
{
    lemma_find(names, n);
    let r = registered(names, n);
    if find(names, n) < 0 {
        assert(r[names.len() as int] == n);
        assert(r.drop_last() =~= names);
    }
    lemma_find(r, n);
}

proof fn lemma_listing_eq(a1: &Arguments, a2: &Arguments, o1: Seq<int>, o2: Seq<int>)
    requires
        o1.len() == o2.len(),
        forall|k: int| 0 <= k < o1.len() ==> a1.line(#[trigger] o1[k]) == a2.line(o2[k]),
    ensures
        a1.listing(o1) == a2.listing(o2),
    decreases o1.len(),
{
    if o1.len() > 0 {
        let p1 = o1.drop_last();
        let p2 = o2.drop_last();
        assert forall|k: int| 0 <= k < p1.len() implies a1.line(#[trigger] p1[k]) == a2.line(p2[k]) by {
            assert(p1[k] == o1[k] && p2[k] == o2[k]);
        }
        lemma_listing_eq(a1, a2, p1, p2);
        assert(a1.line(o1[o1.len() - 1]) == a2.line(o2[o2.len() - 1]));
    }
}

/// The usage text does not depend on the order of registration: two
/// registries with the same program name and the same names, where each name
/// has the same usage line in both, give the same text, whatever sorted order
/// each one lists its bindings in.
pub proof fn law_usage_order(a1: &Arguments, a2: &Arguments, ord1: Seq<int>, ord2: Seq<int>)
    requires
        a1.wf(),
        a2.wf(),
        a1.program() == a2.program(),
        sorted_order(a1.names(), ord1),
        sorted_order(a2.names(), ord2),
        forall|n: Seq<char>| a1.names().contains(n) <==> a2.names().contains(n),
        forall|i: int, j: int|
            0 <= i < a1.names().len() && 0 <= j < a2.names().len() && a1.names()[i]
                == a2.names()[j] ==> a1.line(i) == a2.line(j),
    ensures
        usage_header(a1.program()) + a1.listing(ord1) == usage_header(a2.program()) + a2.listing(
            ord2,
        ),
{
    let n1 = a1.names();
    let n2 = a2.names();
    let s = ord1.map_values(|k: int| n1[k]);
    let t = ord2.map_values(|k: int| n2[k]);
    assert(strictly_sorted(s)) by {
        assert forall|a: int, b: int| 0 <= a < b < s.len() implies lex_lt(#[trigger] s[a], #[trigger] s[b]) by {
            assert(lex_lt(n1[ord1[a]], n1[ord1[b]]));
        }
    }
    assert(strictly_sorted(t)) by {
        assert forall|a: int, b: int| 0 <= a < b < t.len() implies lex_lt(#[trigger] t[a], #[trigger] t[b]) by {
            assert(lex_lt(n2[ord2[a]], n2[ord2[b]]));
        }
    }
    assert forall|x: Seq<char>| s.contains(x) <==> t.contains(x) by {
        if s.contains(x) {
            let p = choose|p: int| 0 <= p < s.len() && s[p] == x;
            assert(n1[ord1[p]] == x);
            assert(n1.contains(x));
            let j = choose|j: int| 0 <= j < n2.len() && n2[j] == x;
            assert(ord2.contains(j));
            let q = choose|q: int| 0 <= q < ord2.len() && ord2[q] == j;
            assert(t[q] == x);
        }
        if t.contains(x) {
            let q = choose|q: int| 0 <= q < t.len() && t[q] == x;
            assert(n2[ord2[q]] == x);
            assert(n2.contains(x));
            let i = choose|i: int| 0 <= i < n1.len() && n1[i] == x;
            assert(ord1.contains(i));
            let p = choose|p: int| 0 <= p < ord1.len() && ord1[p] == i;
            assert(s[p] == x);
        }
    }
    lemma_sorted_unique(s, t);
    assert forall|k: int| 0 <= k < ord1.len() implies a1.line(#[trigger] ord1[k]) == a2.line(ord2[k]) by {
        assert(s[k] == t[k]);
    }
    lemma_listing_eq(a1, a2, ord1, ord2);
}

} // verus!

//! Object identifiers written in dotted form, such as `1.3.6.1.2.1.2.2.1.2`,
//! read into their sequences of arcs.
use vstd::prelude::*;

verus! {

/// `c` is one of the ASCII digits `0` to `9`.
pub open spec fn is_digit(c: char) -> bool {
    '0' <= c && c <= '9'
}

/// The numeric value of one ASCII digit.
pub open spec fn digit_value(c: char) -> nat {
    (c as int - '0' as int) as nat
}

/// Every character of `d` is an ASCII digit.
pub open spec fn all_digits(d: Seq<char>) -> bool {
    forall|i: int| 0 <= i < d.len() ==> is_digit(#[trigger] d[i])
}

/// The value of the decimal numeral `d`, most significant digit first.
pub open spec fn decimal_value(d: Seq<char>) -> nat
    decreases d.len(),
{
    if d.len() == 0 {
        0
    } else {
        decimal_value(d.drop_last()) * 10 + digit_value(d.last())
    }
}

/// The digits of a numeral: `t` without a leading `+`, if it has one.
pub open spec fn unsigned_digits(t: Seq<char>) -> Seq<char> {
    if t.len() > 0 && t[0] == '+' {
        t.drop_first()
    } else {
        t
    }
}

/// What reading `t` as a `u32` in decimal gives: an optional `+`, then one or
/// more ASCII digits whose value fits in a `u32`; anything else is refused.
pub open spec fn arc_value(t: Seq<char>) -> Option<u32> {
    let d = unsigned_digits(t);
    if d.len() > 0 && all_digits(d) && decimal_value(d) <= u32::MAX {
        Some(decimal_value(d) as u32)
    } else {
        None
    }
}

/// The pieces of `s` between the dots, in order, empty ones included:
/// `n` dots give `n + 1` pieces.
pub open spec fn split_dots(s: Seq<char>) -> Seq<Seq<char>>
    decreases s.len(),
{
    if s.len() == 0 {
        seq![Seq::empty()]
    } else {
        let init = split_dots(s.drop_last());
        if s.last() == '.' {
            init.push(Seq::empty())
        } else {
            init.update(init.len() - 1, init.last().push(s.last()))
        }
    }
}

/// The arcs named by `pieces`: empty pieces are skipped, every other piece
/// is read as a `u32`; `None` as soon as one of them cannot be read.
pub open spec fn pieces_arcs(pieces: Seq<Seq<char>>) -> Option<Seq<u32>>
    decreases pieces.len(),
{
    if pieces.len() == 0 {
        Some(Seq::empty())
    } else {
        match pieces_arcs(pieces.drop_last()) {
            None => None,
            Some(arcs) => if pieces.last().len() == 0 {
                Some(arcs)
            } else {
                match arc_value(pieces.last()) {
                    Some(v) => Some(arcs.push(v)),
                    None => None,
                }
            },
        }
    }
}

/// The arcs of the dotted object identifier `s`: its non-empty pieces
/// between dots, each read as a `u32`, or `None` where one cannot be read.
pub open spec fn oid_arcs(s: Seq<char>) -> Option<Seq<u32>> {
    pieces_arcs(split_dots(s))
}

/// `split_dots` always gives at least one piece.
proof fn lemma_split_dots_nonempty(s: Seq<char>)
    ensures
        split_dots(s).len() >= 1,
    decreases s.len(),
{
    if s.len() > 0 {
        lemma_split_dots_nonempty(s.drop_last());
    }
}

/// Splitting `a`, a dot, then `b` gives the pieces of `a` followed by those of `b`.
proof fn lemma_split_dots_join(a: Seq<char>, b: Seq<char>)
    ensures
        split_dots(a.push('.') + b) == split_dots(a) + split_dots(b),
    decreases b.len(),
{
    let c = a.push('.') + b;
    if b.len() == 0 {
        assert(c =~= a.push('.'));
        assert(c.drop_last() =~= a);
        assert(split_dots(a).push(Seq::empty()) =~= split_dots(a) + split_dots(b));
    } else {
        assert(c.drop_last() =~= a.push('.') + b.drop_last());
        lemma_split_dots_join(a, b.drop_last());
        lemma_split_dots_nonempty(b.drop_last());
        let sa = split_dots(a);
        let t = split_dots(b.drop_last());
        if b.last() == '.' {
            assert((sa + t).push(Seq::empty()) =~= sa + t.push(Seq::empty()));
        } else {
            assert((sa + t).update((sa + t).len() - 1, (sa + t).last().push(b.last())) =~= sa
                + t.update(t.len() - 1, t.last().push(b.last())));
        }
    }
}

/// The arcs of the pieces `x` followed by `y` are those of `x` followed by
/// those of `y`, or `None` where either is.
proof fn lemma_pieces_arcs_concat(x: Seq<Seq<char>>, y: Seq<Seq<char>>)
    ensures
        pieces_arcs(x + y) == match (pieces_arcs(x), pieces_arcs(y)) {
            (Some(p), Some(q)) => Some(p + q),
            _ => None::<Seq<u32>>,
        },
    decreases y.len(),
{
    if y.len() == 0 {
        assert(x + y =~= x);
        if let Some(p) = pieces_arcs(x) {
            assert(p + Seq::<u32>::empty() =~= p);
        }
    } else {
        assert((x + y).drop_last() =~= x + y.drop_last());
        assert((x + y).last() == y.last());
        lemma_pieces_arcs_concat(x, y.drop_last());
        if let (Some(p), Some(q)) = (pieces_arcs(x), pieces_arcs(y.drop_last())) {
            if let Some(v) = arc_value(y.last()) {
                assert((p + q).push(v) =~= p + q.push(v));
            }
        }
    }
}

/// Joining two dotted identifiers with a dot reads as the arcs of the first
/// followed by those of the second, and is refused exactly when one of the
/// two is.
pub proof fn lemma_oid_arcs_join(a: Seq<char>, b: Seq<char>)
    ensures
        oid_arcs(a.push('.') + b) == match (oid_arcs(a), oid_arcs(b)) {
            (Some(p), Some(q)) => Some(p + q),
            _ => None::<Seq<u32>>,
        },
{
    lemma_split_dots_join(a, b);
    lemma_pieces_arcs_concat(split_dots(a), split_dots(b));
}

/// The ASCII digit that stands for `d`, for `d` below ten.
pub open spec fn digit_char(d: nat) -> char {
    if d == 0 {
        '0'
    } else if d == 1 {
        '1'
    } else if d == 2 {
        '2'
    } else if d == 3 {
        '3'
    } else if d == 4 {
        '4'
    } else if d == 5 {
        '5'
    } else if d == 6 {
        '6'
    } else if d == 7 {
        '7'
    } else if d == 8 {
        '8'
    } else {
        '9'
    }
}

/// `n` written in decimal, without leading zeros.
pub open spec fn decimal_text(n: nat) -> Seq<char>
    decreases n,
{
    if n < 10 {
        seq![digit_char(n)]
    } else {
        decimal_text(n / 10).push(digit_char(n % 10))
    }
}

/// The arcs `v`, each written in decimal, joined with dots.
pub open spec fn dotted_text(v: Seq<u32>) -> Seq<char>
    decreases v.len(),
{
    if v.len() == 0 {
        Seq::empty()
    } else if v.len() == 1 {
        decimal_text(v[0] as nat)
    } else {
        dotted_text(v.drop_last()).push('.') + decimal_text(v.last() as nat)
    }
}

/// `s` with every dot written twice.
pub open spec fn double_dots(s: Seq<char>) -> Seq<char>
    decreases s.len(),
{
    if s.len() == 0 {
        Seq::empty()
    } else if s.last() == '.' {
        double_dots(s.drop_last()).push('.').push('.')
    } else {
        double_dots(s.drop_last()).push(s.last())
    }
}

/// The non-empty pieces of `pieces`, in order.
pub open spec fn skip_empty(pieces: Seq<Seq<char>>) -> Seq<Seq<char>>
    decreases pieces.len(),
{
    if pieces.len() == 0 {
        Seq::empty()
    } else if pieces.last().len() == 0 {
        skip_empty(pieces.drop_last())
    } else {
        skip_empty(pieces.drop_last()).push(pieces.last())
    }
}

proof fn lemma_digit_char(d: nat)
    requires
        d < 10,
    ensures
        is_digit(digit_char(d)),
        digit_value(digit_char(d)) == d,
{
}

proof fn lemma_decimal_text(n: nat)
    ensures
        decimal_text(n).len() > 0,
        all_digits(decimal_text(n)),
        decimal_value(decimal_text(n)) == n,
    decreases n,
{
    if n < 10 {
        lemma_digit_char(n);
        assert(seq![digit_char(n)].drop_last() =~= Seq::<char>::empty());
        assert(decimal_value(Seq::<char>::empty()) == 0);
    } else {
        lemma_decimal_text(n / 10);
        lemma_digit_char(n % 10);
        let t = decimal_text(n);
        let init = decimal_text(n / 10);
        assert(t.drop_last() =~= init);
        assert forall|i: int| 0 <= i < t.len() implies is_digit(#[trigger] t[i]) by {
            if i < t.len() - 1 {
                assert(t[i] == init[i]);
            }
        }
        assert(t.last() == digit_char(n % 10));
        assert(decimal_value(t) == decimal_value(init) * 10 + digit_value(digit_char(n % 10)));
        assert(n == (n / 10) * 10 + n % 10);
    }
}

/// A text without dots is a single piece.
proof fn lemma_split_no_dots(s: Seq<char>)
    requires
        all_digits(s),
    ensures
        split_dots(s) == seq![s],
    decreases s.len(),
{
    if s.len() > 0 {
        let init = s.drop_last();
        assert(all_digits(init)) by {
            assert forall|i: int| 0 <= i < init.len() implies is_digit(#[trigger] init[i]) by {
                assert(init[i] == s[i]);
            }
        }
        lemma_split_no_dots(init);
        assert(is_digit(s[s.len() - 1]));
        assert(init.push(s.last()) =~= s);
        assert(seq![init].update(0, init.push(s.last())) =~= seq![s]);
    } else {
        assert(s =~= Seq::<char>::empty());
    }
}

/// The decimal text of an arc reads as that arc.
proof fn lemma_oid_arcs_decimal(x: u32)
    ensures
        oid_arcs(decimal_text(x as nat)) == Some(seq![x]),
{
    let t = decimal_text(x as nat);
    lemma_decimal_text(x as nat);
    lemma_split_no_dots(t);
    assert(is_digit(t[0]));
    assert(unsigned_digits(t) == t);
    assert(seq![t].drop_last() =~= Seq::<Seq<char>>::empty());
    assert(pieces_arcs(Seq::<Seq<char>>::empty()) == Some(Seq::<u32>::empty()));
    assert(decimal_value(t) <= u32::MAX);
    assert(arc_value(t) == Some(x));
    assert(Seq::<u32>::empty().push(x) =~= seq![x]);
}

/// Writing arcs in decimal, joined with dots, and reading the text back
/// gives the same arcs.
pub proof fn lemma_oid_arcs_of_dotted_text(v: Seq<u32>)
    ensures
        oid_arcs(dotted_text(v)) == Some(v),
    decreases v.len(),
{
    if v.len() == 0 {
        assert(split_dots(Seq::empty()) == seq![Seq::<char>::empty()]);
        assert(seq![Seq::<char>::empty()].drop_last() =~= Seq::<Seq<char>>::empty());
        assert(pieces_arcs(Seq::<Seq<char>>::empty()) == Some(Seq::<u32>::empty()));
        assert(v =~= Seq::<u32>::empty());
    } else if v.len() == 1 {
        lemma_oid_arcs_decimal(v[0]);
        assert(v =~= seq![v[0]]);
    } else {
        lemma_oid_arcs_of_dotted_text(v.drop_last());
        lemma_oid_arcs_decimal(v.last());
        lemma_oid_arcs_join(dotted_text(v.drop_last()), decimal_text(v.last() as nat));
        assert(v.drop_last() + seq![v.last()] =~= v);
    }
}

/// `n` zeros.
pub open spec fn zeros(n: nat) -> Seq<char> {
    Seq::new(n, |i: int| '0')
}

/// Each digit is the digit of its own value.
proof fn lemma_digit_char_of_value(c: char)
    requires
        is_digit(c),
    ensures
        digit_value(c) < 10,
        digit_char(digit_value(c)) == c,
{
}

/// A leading zero does not change the value of a numeral.
proof fn lemma_decimal_value_leading_zero(e: Seq<char>)
    ensures
        decimal_value(seq!['0'] + e) == decimal_value(e),
    decreases e.len(),
{
    let d = seq!['0'] + e;
    if e.len() == 0 {
        assert(d =~= seq!['0']);
        assert(d.drop_last() =~= Seq::<char>::empty());
        assert(decimal_value(Seq::<char>::empty()) == 0);
    } else {
        lemma_decimal_value_leading_zero(e.drop_last());
        assert(d.drop_last() =~= seq!['0'] + e.drop_last());
        assert(d.last() == e.last());
    }
}

/// Leading zeros do not change the value of a numeral, nor whether it is
/// made of digits.
proof fn lemma_decimal_value_zeros(z: nat, e: Seq<char>)
    ensures
        decimal_value(zeros(z) + e) == decimal_value(e),
        all_digits(zeros(z) + e) == all_digits(e),
    decreases z,
{
    let d = zeros(z) + e;
    if z == 0 {
        assert(d =~= e);
    } else {
        lemma_decimal_value_zeros((z - 1) as nat, e);
        let r = zeros((z - 1) as nat) + e;
        assert(d =~= seq!['0'] + r);
        lemma_decimal_value_leading_zero(r);
        assert(all_digits(d) == all_digits(r)) by {
            if all_digits(r) {
                assert forall|i: int| 0 <= i < d.len() implies is_digit(#[trigger] d[i]) by {
                    if i > 0 {
                        assert(d[i] == r[i - 1]);
                    }
                }
            }
            if all_digits(d) {
                assert forall|i: int| 0 <= i < r.len() implies is_digit(#[trigger] r[i]) by {
                    assert(d[i + 1] == r[i]);
                }
            }
        }
        assert forall|i: int| 0 <= i < e.len() implies #[trigger] r[i + (z - 1)] == e[i] by {}
        assert forall|i: int| 0 <= i < e.len() implies #[trigger] d[i + z] == e[i] by {}
    }
}

/// A numeral of digits that does not start with `0` has a value of at least
/// one and is the decimal text of its value.
proof fn lemma_decimal_text_of_numeral(d: Seq<char>)
    requires
        d.len() > 0,
        all_digits(d),
        d[0] != '0',
    ensures
        decimal_value(d) >= 1,
        d == decimal_text(decimal_value(d)),
    decreases d.len(),
{
    let c = d.last();
    assert(is_digit(d[d.len() - 1]));
    lemma_digit_char_of_value(c);
    if d.len() == 1 {
        assert(d.drop_last() =~= Seq::<char>::empty());
        assert(decimal_value(Seq::<char>::empty()) == 0);
        assert(d =~= seq![c]);
    } else {
        let init = d.drop_last();
        assert(all_digits(init)) by {
            assert forall|i: int| 0 <= i < init.len() implies is_digit(#[trigger] init[i]) by {
                assert(init[i] == d[i]);
            }
        }
        assert(init[0] == d[0]);
        lemma_decimal_text_of_numeral(init);
        let v = decimal_value(init);
        let x = decimal_value(d);
        assert(x == v * 10 + digit_value(c));
        assert(x / 10 == v && x % 10 == digit_value(c)) by (nonlinear_arith)
            requires
                x == v * 10 + digit_value(c),
                digit_value(c) < 10,
        ;
        assert(init.push(c) =~= d);
    }
}

/// A numeral made of digits is its value written in decimal after some
/// leading zeros.
proof fn lemma_numeral_zeros_text(d: Seq<char>)
    requires
        d.len() > 0,
        all_digits(d),
    ensures
        exists|z: nat| d == #[trigger] zeros(z) + decimal_text(decimal_value(d)),
    decreases d.len(),
{
    if d[0] != '0' {
        lemma_decimal_text_of_numeral(d);
        assert(d =~= zeros(0) + decimal_text(decimal_value(d)));
    } else if d.len() == 1 {
        assert(d.drop_last() =~= Seq::<char>::empty());
        assert(decimal_value(Seq::<char>::empty()) == 0);
        assert(decimal_value(d) == 0);
        assert(d =~= zeros(0) + decimal_text(0));
    } else {
        let rest = d.drop_first();
        assert(all_digits(rest)) by {
            assert forall|i: int| 0 <= i < rest.len() implies is_digit(#[trigger] rest[i]) by {
                assert(rest[i] == d[i + 1]);
            }
        }
        assert(d =~= seq!['0'] + rest);
        lemma_decimal_value_leading_zero(rest);
        lemma_numeral_zeros_text(rest);
        let z = choose|z: nat| rest == #[trigger] zeros(z) + decimal_text(decimal_value(rest));
        assert(d =~= zeros(z + 1) + decimal_text(decimal_value(d)));
    }
}

/// A piece is read as the arc `x` exactly when it is `x` written in decimal,
/// after any number of leading zeros and at most one leading `+`.
pub proof fn lemma_arc_value_text(t: Seq<char>, x: u32)
    ensures
        arc_value(t) == Some(x) <==> exists|z: nat|
            t == #[trigger] zeros(z) + decimal_text(x as nat) || t == seq!['+'] + zeros(z)
                + decimal_text(x as nat),
{
    if arc_value(t) == Some(x) {
        let d = unsigned_digits(t);
        lemma_numeral_zeros_text(d);
        let z = choose|z: nat| d == #[trigger] zeros(z) + decimal_text(decimal_value(d));
        assert(decimal_value(d) == x as nat);
        if t.len() > 0 && t[0] == '+' {
            assert(t =~= seq!['+'] + d);
            assert(t =~= seq!['+'] + zeros(z) + decimal_text(x as nat));
        } else {
            assert(t =~= zeros(z) + decimal_text(x as nat));
        }
    }
    if exists|z: nat|
        t == #[trigger] zeros(z) + decimal_text(x as nat) || t == seq!['+'] + zeros(z)
            + decimal_text(x as nat) {
        let z = choose|z: nat|
            t == #[trigger] zeros(z) + decimal_text(x as nat) || t == seq!['+'] + zeros(z)
                + decimal_text(x as nat);
        let e = decimal_text(x as nat);
        let d = zeros(z) + e;
        assert(seq!['+'] + zeros(z) + e =~= seq!['+'] + d);
        lemma_decimal_text(x as nat);
        lemma_decimal_value_zeros(z, e);
        assert(is_digit(d[0])) by {
            if z == 0 {
                assert(d[0] == e[0]);
            }
        }
        if t == seq!['+'] + d {
            assert(t.drop_first() =~= d);
        } else {
            assert(t =~= d);
        }
        assert(unsigned_digits(t) == d);
    }
}

proof fn lemma_pieces_arcs_skip_empty(pieces: Seq<Seq<char>>)
    ensures
        pieces_arcs(pieces) == pieces_arcs(skip_empty(pieces)),
    decreases pieces.len(),
{
    if pieces.len() > 0 {
        lemma_pieces_arcs_skip_empty(pieces.drop_last());
        let init = skip_empty(pieces.drop_last());
        if pieces.last().len() > 0 {
            assert(init.push(pieces.last()).drop_last() =~= init);
        }
    }
}

/// Doubling the dots of `s` leaves its last piece as it is and only adds
/// empty pieces before it.
proof fn lemma_double_dots_pieces(s: Seq<char>)
    ensures
        split_dots(double_dots(s)).len() > 0,
        split_dots(s).len() > 0,
        split_dots(double_dots(s)).last() == split_dots(s).last(),
        skip_empty(split_dots(double_dots(s)).drop_last()) == skip_empty(
            split_dots(s).drop_last(),
        ),
    decreases s.len(),
{
    lemma_split_dots_nonempty(s);
    lemma_split_dots_nonempty(double_dots(s));
    if s.len() > 0 {
        let s0 = s.drop_last();
        lemma_double_dots_pieces(s0);
        let d0 = double_dots(s0);
        let p = split_dots(d0);
        let q = split_dots(s0);
        if s.last() == '.' {
            let d1 = d0.push('.');
            assert(d1.drop_last() =~= d0);
            assert(d1.push('.').drop_last() =~= d1);
            assert(split_dots(d1) == p.push(Seq::empty()));
            assert(p.push(Seq::empty()).push(Seq::empty()).drop_last() =~= p.push(Seq::empty()));
            assert(p.push(Seq::empty()).drop_last() =~= p);
            assert(q.push(Seq::empty()).drop_last() =~= q);
            assert(skip_empty(p) == skip_empty(q));
        } else {
            assert(d0.push(s.last()).drop_last() =~= d0);
            assert(p.update(p.len() - 1, p.last().push(s.last())).drop_last() =~= p.drop_last());
            assert(q.update(q.len() - 1, q.last().push(s.last())).drop_last() =~= q.drop_last());
        }
    }
}

/// Extra dots change nothing: doubling every dot of `s` and adding one at
/// each end reads as the same arcs as `s`, or is refused as `s` is.
pub proof fn lemma_oid_arcs_extra_dots(s: Seq<char>)
    ensures
        oid_arcs(seq!['.'] + double_dots(s) + seq!['.']) == oid_arcs(s),
{
    let e = Seq::<char>::empty();
    let d = double_dots(s);
    let t0 = seq!['.'] + d;
    let t = t0 + seq!['.'];
    assert(t0 =~= e.push('.') + d);
    lemma_split_dots_join(e, d);
    assert(split_dots(e) == seq![e]);
    assert(t.drop_last() =~= t0);
    let p = split_dots(d);
    let q = split_dots(s);
    assert(split_dots(t) == (seq![e] + p).push(e));
    assert((seq![e] + p).push(e).drop_last() =~= seq![e] + p);
    lemma_pieces_arcs_concat(seq![e], p);
    assert(seq![e].drop_last() =~= Seq::<Seq<char>>::empty());
    assert(pieces_arcs(Seq::<Seq<char>>::empty()) == Some(Seq::<u32>::empty()));
    assert(pieces_arcs(seq![e]) == Some(Seq::<u32>::empty()));
    if let Some(a) = pieces_arcs(p) {
        assert(Seq::<u32>::empty() + a =~= a);
    }
    lemma_double_dots_pieces(s);
    lemma_pieces_arcs_skip_empty(p);
    lemma_pieces_arcs_skip_empty(q);
    assert(skip_empty(p) == skip_empty(q)) by {
        lemma_split_dots_nonempty(d);
        lemma_split_dots_nonempty(s);
    }
}

/// Reads the dotted object identifier `s` into its arcs; `None` where a
/// non-empty piece between dots is not a `u32` in decimal.
pub fn parse_oid(s: &str) -> (arcs: Option<Vec<u32>>)
    ensures
        match arcs {
            Some(v) => oid_arcs(s@) == Some(v@),
            None => oid_arcs(s@) is None,
        },
{
    let mut out: Vec<u32> = Vec::new();
    let mut failed = false;
    // State of the piece being read.
    let mut cur_empty = true;
    let mut has_digit = false;
    let mut bad = false;
    let mut val: u64 = 0;
    let ghost mut cur: Seq<char> = Seq::empty();
    let ghost mut done: Seq<Seq<char>> = Seq::empty();
    proof {
        assert(s@.take(0) =~= Seq::<char>::empty());
        assert(split_dots(s@.take(0)) =~= done.push(cur));
    }
    for c in it: s.chars()
        invariant
            it.seq() == s@,
            0 <= it.index() <= s@.len(),
            split_dots(s@.take(it.index())) == done.push(cur),
            cur_empty == (cur.len() == 0),
            has_digit == (unsigned_digits(cur).len() > 0),
            bad == !(all_digits(unsigned_digits(cur)) && decimal_value(unsigned_digits(cur))
                <= u32::MAX),
            !bad ==> val == decimal_value(unsigned_digits(cur)),
            failed == (pieces_arcs(done) is None),
            !failed ==> pieces_arcs(done) == Some(out@),
    {
        let ghost k = it.index();
        proof {
            assert(s@.take(k + 1).drop_last() =~= s@.take(k));
            assert(s@.take(k + 1).last() == c);
            lemma_split_dots_nonempty(s@.take(k));
        }
        if c == '.' {
            // The piece ends here.
            proof {
                assert(split_dots(s@.take(k + 1)) == done.push(cur).push(Seq::empty()));
                assert(done.push(cur).drop_last() =~= done);
            }
            if !failed && !cur_empty {
                if !bad && has_digit {
                    out.push(val as u32);
                } else {
                    failed = true;
                }
            }
            proof {
                done = done.push(cur);
                cur = Seq::empty();
                assert(unsigned_digits(cur) =~= Seq::<char>::empty());
            }
            cur_empty = true;
            has_digit = false;
            bad = false;
            val = 0;
        } else {
            let ghost old_cur = cur;
            proof {
                let segs = done.push(cur);
                assert(split_dots(s@.take(k + 1)) == segs.update(segs.len() - 1, cur.push(c)));
                assert(segs.update(segs.len() - 1, cur.push(c)) =~= done.push(cur.push(c)));
                cur = cur.push(c);
            }
            if cur_empty && c == '+' {
                proof {
                    assert(unsigned_digits(cur) =~= Seq::<char>::empty());
                }
            } else {
                proof {
                    assert(unsigned_digits(cur) =~= unsigned_digits(old_cur).push(c));
                    let d = unsigned_digits(cur);
                    assert(d.drop_last() =~= unsigned_digits(old_cur));
                    assert(all_digits(d) == (all_digits(unsigned_digits(old_cur)) && is_digit(c)))
                        by {
                        if all_digits(d) {
                            assert(is_digit(d[d.len() - 1]));
                        }
                    }
                }
                has_digit = true;
                if !bad {
                    if '0' <= c && c <= '9' {
                        let digit = (c as u32) - ('0' as u32);
                        val = val * 10 + (digit as u64);
                        if val > 0xffff_ffff {
                            bad = true;
                        }
                    } else {
                        bad = true;
                    }
                }
            }
            cur_empty = false;
        }
    }
    proof {
        assert(s@.take(s@.len() as int) =~= s@);
        assert(done.push(cur).drop_last() =~= done);
    }
    if failed {
        return None;
    }
    if !cur_empty {
        if !bad && has_digit {
            out.push(val as u32);
        } else {
            return None;
        }
    }
    Some(out)
}

} // verus!

verus! {

/// Reads each dotted object identifier of `snmp_oids` into its arcs.
/// Every identifier must be readable (see `parse_oid`).
pub fn oid_strings_to_uint_vecs(snmp_oids: &[String]) -> (oid_buf: Vec<Vec<u32>>)
    requires
        forall|i: int| 0 <= i < snmp_oids@.len() ==> (#[trigger] oid_arcs(snmp_oids@[i]@)) is Some,
    ensures
        oid_buf@.len() == snmp_oids@.len(),
        forall|i: int|
            0 <= i < snmp_oids@.len() ==> Some(#[trigger] oid_buf@[i]@) == oid_arcs(snmp_oids@[i]@),
{
    let mut oid_buf: Vec<Vec<u32>> = Vec::new();
    for i in 0..snmp_oids.len()
        invariant
            forall|j: int| 0 <= j < snmp_oids@.len() ==> (#[trigger] oid_arcs(snmp_oids@[j]@)) is Some,
            oid_buf@.len() == i,
            forall|j: int| 0 <= j < i ==> Some(#[trigger] oid_buf@[j]@) == oid_arcs(snmp_oids@[j]@),
    {
        let arcs = parse_oid(snmp_oids[i].as_str());
        assert(oid_arcs(snmp_oids@[i as int]@) is Some);
        oid_buf.push(arcs.unwrap());
    }
    oid_buf
}

/// Borrows each vector of arcs of `oid_vec` as a slice, in order.
pub fn oid_uints_to_ary(oid_vec: &Vec<Vec<u32>>) -> (oids: Vec<&[u32]>)
    ensures
        oids@.len() == oid_vec@.len(),
        forall|i: int| 0 <= i < oid_vec@.len() ==> (#[trigger] oids@[i])@ == oid_vec@[i]@,
{
    let mut oids: Vec<&[u32]> = Vec::new();
    for i in 0..oid_vec.len()
        invariant
            oids@.len() == i,
            forall|j: int| 0 <= j < i ==> (#[trigger] oids@[j])@ == oid_vec@[j]@,
    {
        let v = oid_vec[i].as_slice();
        oids.push(v);
    }
    oids
}

} // verus!

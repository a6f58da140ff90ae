//! Character-sequence helpers shared by the output protocol and the cache
//! codec: splitting on a delimiter, joining, and decimal numerals, each with
//! the lemmas that make encode/decode round trips provable.

use vstd::prelude::*;

verus! {

// ---------------------------------------------------------------------------
// Splitting and joining on a delimiter character.
// ---------------------------------------------------------------------------

/// The fields obtained by cutting `s` at every occurrence of `d`.
/// Always yields at least one field; `n` delimiters yield `n + 1` fields.
pub open spec fn split_on(s: Seq<char>, d: char) -> Seq<Seq<char>>
    decreases s.len(),
{
    if s.len() == 0 {
        seq![Seq::<char>::empty()]
    } else if s.last() == d {
        split_on(s.drop_last(), d).push(Seq::<char>::empty())
    } else {
        let rest = split_on(s.drop_last(), d);
        rest.update(rest.len() - 1, rest.last().push(s.last()))
    }
}

/// The concatenation of `parts` with `d` between consecutive parts.
pub open spec fn join_with(parts: Seq<Seq<char>>, d: char) -> Seq<char>
    decreases parts.len(),
{
    if parts.len() == 0 {
        Seq::<char>::empty()
    } else if parts.len() == 1 {
        parts[0]
    } else {
        join_with(parts.drop_last(), d) + seq![d] + parts.last()
    }
}

pub proof fn lemma_split_len(s: Seq<char>, d: char)
    ensures
        split_on(s, d).len() >= 1,
    decreases s.len(),
{
    if s.len() > 0 {
        lemma_split_len(s.drop_last(), d);
    }
}

/// A sequence free of the delimiter splits into itself alone.
pub proof fn lemma_split_clean(p: Seq<char>, d: char)
    requires
        !p.contains(d),
    ensures
        split_on(p, d) =~= seq![p],
    decreases p.len(),
{
    if p.len() > 0 {
        assert(p[p.len() - 1] == p.last());
        assert(p.last() != d);
        assert(!p.drop_last().contains(d)) by {
            assert forall|i: int| 0 <= i < p.drop_last().len() implies p.drop_last()[i] != d by {
                assert(p[i] != d);
            }
        }
        lemma_split_clean(p.drop_last(), d);
        let rest = split_on(p.drop_last(), d);
        assert(rest =~= seq![p.drop_last()]);
        assert(rest.len() == 1);
        assert(split_on(p, d) == rest.update(rest.len() - 1, rest.last().push(p.last())));
        assert(split_on(p, d).len() == 1);
        assert(rest.last() == p.drop_last());
        assert(split_on(p, d)[0] =~= p);
        assert(split_on(p, d) =~= seq![p]);
    } else {
        assert(p =~= Seq::<char>::empty());
    }
}

/// Appending `d` and then a delimiter-free field adds exactly that field to
/// the split.
pub proof fn lemma_split_append(s: Seq<char>, p: Seq<char>, d: char)
    requires
        !p.contains(d),
    ensures
        split_on(s + seq![d] + p, d) =~= split_on(s, d).push(p),
    decreases p.len(),
{
    if p.len() == 0 {
        assert(p =~= Seq::<char>::empty());
        assert(s + seq![d] + p =~= s + seq![d]);
        assert((s + seq![d]).last() == d);
        assert((s + seq![d]).drop_last() =~= s);
        assert(split_on(s + seq![d], d) =~= split_on(s, d).push(Seq::<char>::empty()));
    } else {
        let c = p.last();
        assert(p.contains(p.last())) by {
            assert(p[p.len() - 1] == p.last());
        }
        assert(c != d);
        assert(!p.drop_last().contains(d)) by {
            assert forall|i: int| 0 <= i < p.drop_last().len() implies p.drop_last()[i] != d by {
                assert(p[i] != d);
            }
        }
        lemma_split_append(s, p.drop_last(), d);
        let w = s + seq![d] + p;
        assert(w.last() == c);
        assert(w.drop_last() =~= s + seq![d] + p.drop_last());
        lemma_split_len(s, d);
        let rest = split_on(s, d).push(p.drop_last());
        assert(split_on(w.drop_last(), d) =~= rest);
        assert(rest.last().push(c) =~= p);
        assert(split_on(w, d) =~= rest.update(rest.len() - 1, p));
        assert(rest.update(rest.len() - 1, p) =~= split_on(s, d).push(p));
    }
}

/// Splitting a join of delimiter-free fields restores exactly those fields.
pub proof fn lemma_split_join(parts: Seq<Seq<char>>, d: char)
    requires
        parts.len() >= 1,
        forall|i: int| 0 <= i < parts.len() ==> !(#[trigger] parts[i]).contains(d),
    ensures
        split_on(join_with(parts, d), d) =~= parts,
    decreases parts.len(),
{
    if parts.len() == 1 {
        lemma_split_clean(parts[0], d);
        assert(join_with(parts, d) == parts[0]);
        assert(split_on(join_with(parts, d), d) =~= seq![parts[0]]);
        assert(seq![parts[0]] =~= parts);
    } else {
        lemma_split_join(parts.drop_last(), d);
        lemma_split_append(join_with(parts.drop_last(), d), parts.last(), d);
        assert(parts.contains(parts.last())) by {
            assert(parts[parts.len() - 1] == parts.last());
        }
        assert(split_on(join_with(parts, d), d) =~= parts.drop_last().push(parts.last()));
        assert(parts.drop_last().push(parts.last()) =~= parts);
    }
}

/// The views of a sequence of character vectors.
pub open spec fn seq_views(s: Seq<Vec<char>>) -> Seq<Seq<char>> {
    s.map_values(|v: Vec<char>| v@)
}

/// Splits `v` at every occurrence of `d`.
pub fn split_chars(v: &Vec<char>, d: char) -> (r: Vec<Vec<char>>)
    ensures
        seq_views(r@) == split_on(v@, d),
        r.len() >= 1,
{
    let mut parts: Vec<Vec<char>> = Vec::new();
    let mut cur: Vec<char> = Vec::new();
    let mut i: usize = 0;
    while i < v.len()
        invariant
            0 <= i <= v.len(),
            seq_views(parts@).push(cur@) =~= split_on(v@.take(i as int), d),
        decreases v.len() - i,
    {
        let c = v[i];
        assert(v@.take(i + 1int).drop_last() =~= v@.take(i as int));
        assert(v@.take(i + 1int).last() == v@[i as int]);
        if c == d {
            let ghost old_parts = parts@;
            let ghost old_cur = cur@;
            parts.push(cur);
            cur = Vec::new();
            proof {
                lemma_split_len(v@.take(i as int), d);
                assert(seq_views(parts@) =~= seq_views(old_parts).push(old_cur));
                assert(seq_views(parts@).push(cur@) =~= split_on(v@.take(i + 1int), d));
            }
        } else {
            let ghost old_parts = parts@;
            let ghost old_cur = cur@;
            cur.push(c);
            proof {
                lemma_split_len(v@.take(i as int), d);
                let rest = split_on(v@.take(i as int), d);
                assert(seq_views(old_parts).push(old_cur).last() == old_cur);
                assert(rest.last() == old_cur);
                assert(seq_views(parts@).push(cur@) =~= rest.update(
                    rest.len() - 1,
                    rest.last().push(c),
                ));
            }
        }
        i = i + 1;
    }
    assert(v@.take(v.len() as int) =~= v@);
    let ghost old_parts = parts@;
    let ghost old_cur = cur@;
    parts.push(cur);
    proof {
        lemma_split_len(v@, d);
        assert(seq_views(parts@) =~= seq_views(old_parts).push(old_cur));
        assert(seq_views(parts@) =~= split_on(v@, d));
    }
    parts
}

/// Appends all characters of `src` to `dst`.
pub fn append_chars(dst: &mut Vec<char>, src: &Vec<char>)
    ensures
        final(dst)@ == old(dst)@ + src@,
{
    let mut i: usize = 0;
    while i < src.len()
        invariant
            0 <= i <= src.len(),
            dst@ =~= old(dst)@ + src@.take(i as int),
        decreases src.len() - i,
    {
        dst.push(src[i]);
        assert(dst@ =~= old(dst)@ + src@.take(i + 1int));
        i = i + 1;
    }
    assert(dst@ =~= old(dst)@ + src@);
}

/// Joins `parts` with `d` between consecutive parts.
pub fn join_chars(parts: &Vec<Vec<char>>, d: char) -> (r: Vec<char>)
    ensures
        r@ == join_with(seq_views(parts@), d),
{
    let mut r: Vec<char> = Vec::new();
    let mut i: usize = 0;
    while i < parts.len()
        invariant
            0 <= i <= parts.len(),
            r@ =~= join_with(seq_views(parts@).take(i as int), d),
        decreases parts.len() - i,
    {
        if i > 0 {
            r.push(d);
        }
        append_chars(&mut r, &parts[i]);
        proof {
            let w = seq_views(parts@);
            assert(w.take(i + 1int).drop_last() =~= w.take(i as int));
            assert(w.take(i + 1int).last() == parts@[i as int]@);
            if i == 0 {
                assert(r@ =~= join_with(w.take(i + 1int), d));
            } else {
                assert(r@ =~= join_with(w.take(i as int), d) + seq![d] + parts@[i as int]@);
                assert(r@ =~= join_with(w.take(i + 1int), d));
            }
        }
        i = i + 1;
    }
    assert(seq_views(parts@).take(parts.len() as int) =~= seq_views(parts@));
    r
}

// ---------------------------------------------------------------------------
// Decimal numerals.
// ---------------------------------------------------------------------------

/// The ten decimal digit characters.
pub open spec fn is_digit(c: char) -> bool {
    c == '0' || c == '1' || c == '2' || c == '3' || c == '4' || c == '5' || c == '6' || c == '7'
        || c == '8' || c == '9'
}

pub open spec fn digit_char(d: nat) -> char {
    if d == 0 {
        '0'
    } else if d == 1 {
        '1'
    } else if d == 2 {
        '2'
    } else if d == 3 {
        '3'
    } else if d == 4 {
        '4'
    } else if d == 5 {
        '5'
    } else if d == 6 {
        '6'
    } else if d == 7 {
        '7'
    } else if d == 8 {
        '8'
    } else {
        '9'
    }
}

pub open spec fn digit_val(c: char) -> nat {
    if c == '0' {
        0
    } else if c == '1' {
        1
    } else if c == '2' {
        2
    } else if c == '3' {
        3
    } else if c == '4' {
        4
    } else if c == '5' {
        5
    } else if c == '6' {
        6
    } else if c == '7' {
        7
    } else if c == '8' {
        8
    } else {
        9
    }
}

/// The usual decimal numeral for `n`, most significant digit first, without
/// leading zeros (`0` itself is written as one digit).
pub open spec fn dec_rep(n: nat) -> Seq<char>
    decreases n,
{
    if n < 10 {
        seq![digit_char(n)]
    } else {
        dec_rep(n / 10).push(digit_char(n % 10))
    }
}

pub open spec fn all_digits(s: Seq<char>) -> bool {
    forall|i: int| 0 <= i < s.len() ==> is_digit(#[trigger] s[i])
}

/// The value of a sequence of digit characters read as a decimal numeral.
pub open spec fn dec_val(s: Seq<char>) -> nat
    decreases s.len(),
{
    if s.len() == 0 {
        0
    } else {
        dec_val(s.drop_last()) * 10 + digit_val(s.last())
    }
}

/// A decimal numeral consists of digits and reads back as its own value.
pub proof fn lemma_dec_rep(n: nat)
    ensures
        dec_rep(n).len() >= 1,
        all_digits(dec_rep(n)),
        dec_val(dec_rep(n)) == n,
    decreases n,
{
    if n < 10 {
        assert(dec_val(seq![digit_char(n)].drop_last()) == 0) by {
            assert(seq![digit_char(n)].drop_last() =~= Seq::<char>::empty());
        }
    } else {
        lemma_dec_rep(n / 10);
        let w = dec_rep(n / 10).push(digit_char(n % 10));
        assert(w.drop_last() =~= dec_rep(n / 10));
        assert(dec_val(w) == dec_val(dec_rep(n / 10)) * 10 + digit_val(digit_char(n % 10)));
        assert(n / 10 * 10 + n % 10 == n);
        assert forall|i: int| 0 <= i < w.len() implies is_digit(#[trigger] w[i]) by {
            if i < w.len() - 1 {
                assert(is_digit(dec_rep(n / 10)[i]));
            }
        }
    }
}

/// No digit character is one of the given separator characters.
pub proof fn lemma_digits_not(s: Seq<char>, d: char)
    requires
        all_digits(s),
        !is_digit(d),
    ensures
        !s.contains(d),
{
    assert forall|i: int| 0 <= i < s.len() implies s[i] != d by {
        assert(is_digit(s[i]));
    }
}

fn digit_to_char(d: u64) -> (c: char)
    requires
        d < 10,
    ensures
        c == digit_char(d as nat),
{
    if d == 0 {
        '0'
    } else if d == 1 {
        '1'
    } else if d == 2 {
        '2'
    } else if d == 3 {
        '3'
    } else if d == 4 {
        '4'
    } else if d == 5 {
        '5'
    } else if d == 6 {
        '6'
    } else if d == 7 {
        '7'
    } else if d == 8 {
        '8'
    } else {
        '9'
    }
}

/// Appends the decimal numeral of `n` to `out`.
pub fn push_decimal(n: u64, out: &mut Vec<char>)
    ensures
        final(out)@ == old(out)@ + dec_rep(n as nat),
    decreases n,
{
    if n >= 10 {
        assert(n / 10 < n);
        push_decimal(n / 10, out);
    }
    let ghost mid = out@;
    out.push(digit_to_char(n % 10));
    proof {
        if n < 10 {
            assert(out@ =~= old(out)@ + dec_rep(n as nat));
        } else {
            assert(mid == old(out)@ + dec_rep((n / 10) as nat));
            assert(dec_rep(n as nat) == dec_rep((n / 10) as nat).push(digit_char((n % 10) as nat)));
            assert(out@ =~= old(out)@ + dec_rep(n as nat));
        }
    }
}

/// The decimal numeral of `n`, as characters.
pub fn decimal_chars(n: u64) -> (r: Vec<char>)
    ensures
        r@ == dec_rep(n as nat),
{
    let mut r: Vec<char> = Vec::new();
    push_decimal(n, &mut r);
    assert(r@ =~= dec_rep(n as nat));
    r
}

fn char_to_digit(c: char) -> (r: Option<u64>)
    ensures
        r is Some <==> is_digit(c),
        r is Some ==> r->Some_0 == digit_val(c) && r->Some_0 < 10,
{
    if c == '0' {
        Some(0)
    } else if c == '1' {
        Some(1)
    } else if c == '2' {
        Some(2)
    } else if c == '3' {
        Some(3)
    } else if c == '4' {
        Some(4)
    } else if c == '5' {
        Some(5)
    } else if c == '6' {
        Some(6)
    } else if c == '7' {
        Some(7)
    } else if c == '8' {
        Some(8)
    } else if c == '9' {
        Some(9)
    } else {
        None
    }
}

proof fn lemma_dec_val_take_step(s: Seq<char>, i: int)
    requires
        0 <= i < s.len(),
    ensures
        dec_val(s.take(i + 1)) == dec_val(s.take(i)) * 10 + digit_val(s[i]),
{
    assert(s.take(i + 1).drop_last() =~= s.take(i));
    assert(s.take(i + 1).last() == s[i]);
}

proof fn lemma_dec_val_monotone(s: Seq<char>, i: int)
    requires
        0 <= i <= s.len(),
    ensures
        dec_val(s) >= dec_val(s.take(i)),
    decreases s.len() - i,
{
    if i == s.len() {
        assert(s.take(i) =~= s);
    } else {
        lemma_dec_val_take_step(s, i);
        lemma_dec_val_monotone(s, i + 1);
        assert(dec_val(s.take(i + 1)) >= dec_val(s.take(i))) by (nonlinear_arith)
            requires
                dec_val(s.take(i + 1)) == dec_val(s.take(i)) * 10 + digit_val(s[i]),
        ;
    }
}

/// Reads a decimal numeral. Returns `None` on an empty or non-digit input and
/// on a value too large for `u64`.
pub fn parse_decimal(v: &Vec<char>) -> (r: Option<u64>)
    ensures
        r is Some ==> v@.len() >= 1 && all_digits(v@) && r->Some_0 as nat == dec_val(v@),
        r is None ==> v@.len() == 0 || !all_digits(v@) || dec_val(v@) > u64::MAX,
{
    if v.len() == 0 {
        return None;
    }
    let mut acc: u64 = 0;
    let mut i: usize = 0;
    while i < v.len()
        invariant
            0 <= i <= v.len(),
            all_digits(v@.take(i as int)),
            acc as nat == dec_val(v@.take(i as int)),
        decreases v.len() - i,
    {
        let c = v[i];
        match char_to_digit(c) {
            None => {
                assert(!is_digit(v@[i as int]));
                return None;
            },
            Some(d) => {
                proof {
                    lemma_dec_val_take_step(v@, i as int);
                }
                if acc > (u64::MAX - d) / 10 {
                    proof {
                        let big = dec_val(v@.take(i + 1int));
                        assert(big > u64::MAX) by (nonlinear_arith)
                            requires
                                big == acc as nat * 10 + digit_val(v@[i as int]),
                                digit_val(v@[i as int]) == d as nat,
                                d < 10,
                                acc > (u64::MAX - d) / 10,
                        ;
                        lemma_dec_val_monotone(v@, i + 1int);
                        assert(v@.take(v@.len() as int) =~= v@);
                    }
                    return None;
                }
                proof {
                    assert(acc as nat * 10 + d as nat <= u64::MAX) by (nonlinear_arith)
                        requires
                            d < 10,
                            acc <= (u64::MAX - d) / 10,
                    ;
                }
                acc = acc * 10 + d;
                assert(all_digits(v@.take(i + 1int))) by {
                    assert forall|j: int| 0 <= j < i + 1 implies is_digit(
                        #[trigger] v@.take(i + 1int)[j],
                    ) by {
                        if j < i {
                            assert(is_digit(v@.take(i as int)[j]));
                        } else {
                            assert(v@.take(i + 1int)[j] == v@[i as int]);
                        }
                    }
                }
            },
        }
        i = i + 1;
    }
    assert(v@.take(v@.len() as int) =~= v@);
    Some(acc)
}

/// A join on `d` contains no character `c` other than `d` that no part
/// contains.
pub proof fn lemma_join_not_contains(parts: Seq<Seq<char>>, d: char, c: char)
    requires
        c != d,
        forall|i: int| 0 <= i < parts.len() ==> !(#[trigger] parts[i]).contains(c),
    ensures
        !join_with(parts, d).contains(c),
    decreases parts.len(),
{
    if parts.len() == 0 {
    } else if parts.len() == 1 {
        assert(!parts[0].contains(c));
    } else {
        assert(forall|i: int|
            0 <= i < parts.drop_last().len() ==> !(#[trigger] parts.drop_last()[i]).contains(c));
        lemma_join_not_contains(parts.drop_last(), d, c);
        let w = join_with(parts.drop_last(), d) + seq![d] + parts.last();
        assert(parts[parts.len() - 1] == parts.last());
        assert forall|k: int| 0 <= k < w.len() implies w[k] != c by {
            if k < join_with(parts.drop_last(), d).len() {
                assert(!join_with(parts.drop_last(), d).contains(c));
            } else if k == join_with(parts.drop_last(), d).len() {
            } else {
                assert(!parts.last().contains(c));
                assert(w[k] == parts.last()[k - join_with(parts.drop_last(), d).len() - 1]);
            }
        }
    }
}

/// A join of `n` parts holds at least `n - 1` characters, and at least as
/// many as its first part.
pub proof fn lemma_join_len(parts: Seq<Seq<char>>, d: char)
    requires
        parts.len() >= 1,
    ensures
        join_with(parts, d).len() >= parts.len() - 1,
        join_with(parts, d).len() >= parts[0].len(),
    decreases parts.len(),
{
    if parts.len() > 1 {
        lemma_join_len(parts.drop_last(), d);
        assert(parts.drop_last()[0] == parts[0]);
    }
}

// ---------------------------------------------------------------------------
// Conversions between `str`/`String` and `Vec<char>`.
// ---------------------------------------------------------------------------

/// Relies on `String::push`: appends exactly the given character to the end
/// of the string.
#[verifier::external_body]
fn push_char(s: &mut String, c: char)
    ensures
        final(s)@ == old(s)@.push(c),
{
    s.push(c)
}

/// The characters of `s`, in order.
pub fn chars_of_str(s: &str) -> (v: Vec<char>)
    ensures
        v@ == s@,
{
    let n = s.unicode_len();
    let mut v: Vec<char> = Vec::new();
    let mut i: usize = 0;
    while i < n
        invariant
            0 <= i <= n,
            n == s@.len(),
            v@ =~= s@.take(i as int),
        decreases n - i,
    {
        v.push(s.get_char(i));
        assert(v@ =~= s@.take(i + 1int));
        i = i + 1;
    }
    assert(v@ =~= s@);
    v
}

/// The string holding exactly the characters of `v`.
pub fn string_of_chars(v: &Vec<char>) -> (s: String)
    ensures
        s@ == v@,
{
    let mut s = String::new();
    let mut i: usize = 0;
    while i < v.len()
        invariant
            0 <= i <= v.len(),
            s@ =~= v@.take(i as int),
        decreases v.len() - i,
    {
        push_char(&mut s, v[i]);
        assert(s@ =~= v@.take(i + 1int));
        i = i + 1;
    }
    assert(s@ =~= v@);
    s
}

/// The characters of `v` from `from` (inclusive) to `to` (exclusive).
pub fn sub_chars(v: &Vec<char>, from: usize, to: usize) -> (r: Vec<char>)
    requires
        from <= to <= v@.len(),
    ensures
        r@ == v@.subrange(from as int, to as int),
{
    let mut r: Vec<char> = Vec::new();
    let mut i: usize = from;
    while i < to
        invariant
            from <= i <= to <= v@.len(),
            r@ =~= v@.subrange(from as int, i as int),
        decreases to - i,
    {
        r.push(v[i]);
        assert(r@ =~= v@.subrange(from as int, i + 1int));
        i = i + 1;
    }
    r
}

/// Whether two string slices hold the same characters.
pub fn str_eq(a: &str, b: &str) -> (r: bool)
    ensures
        r == (a@ == b@),
{
    let an = a.unicode_len();
    let bn = b.unicode_len();
    if an != bn {
        return false;
    }
    let mut i: usize = 0;
    while i < an
        invariant
            0 <= i <= an,
            an == a@.len(),
            an == b@.len(),
            forall|j: int| 0 <= j < i ==> a@[j] == b@[j],
        decreases an - i,
    {
        if a.get_char(i) != b.get_char(i) {
            return false;
        }
        i = i + 1;
    }
    assert(a@ =~= b@);
    true
}

} // verus!


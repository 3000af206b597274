//! Character-level text helpers: decimal numbers, booleans and splitting on a separator.
use vstd::prelude::*;

verus! {

/// Whether `c` is an ASCII decimal digit.
pub open spec fn is_digit(c: char) -> bool {
    '0' <= c && c <= '9'
}

/// The numeric value of a digit character.
pub open spec fn digit_value(c: char) -> int {
    c as int - '0' as int
}

/// The digit character for `d` in `0..10`.
pub open spec fn digit_char(d: nat) -> char {
    ((d + 48) as u8) as char
}

/// The decimal digits of `n`, most significant first, without leading zeros.
pub open spec fn nat_digits(n: nat) -> Seq<char>
    decreases n,
{
    if n < 10 {
        seq![digit_char(n)]
    } else {
        nat_digits(n / 10).push(digit_char(n % 10))
    }
}

/// Decimal text of an integer: a leading `-` for negatives, then the digits.
pub open spec fn int_text(n: int) -> Seq<char> {
    if n < 0 {
        seq!['-'] + nat_digits((-n) as nat)
    } else {
        nat_digits(n as nat)
    }
}

fn digit_to_char(d: u32) -> (c: char)
    requires
        d < 10,
    ensures
        c == digit_char(d as nat),
{
    ((d + 48) as u8) as char
}

/// Appends one character to a string.
/// Relies on `String::push`, which appends `ch` at the end.
#[verifier::external_body]
pub(crate) fn push_char(s: &mut String, ch: char)
    ensures
        final(s)@ == old(s)@.push(ch),
{
    s.push(ch)
}

/// Appends the decimal text of `n` to `s`.
pub fn push_int(s: &mut String, n: i32)
    ensures
        final(s)@ == old(s)@ + int_text(n as int),
{
    let mut m: u32 = if n < 0 { (0i64 - n as i64) as u32 } else { n as u32 };
    let ghost mag: nat = m as nat;
    let mut acc: Vec<char> = Vec::new();
    while m >= 10
        invariant
            nat_digits(mag) == nat_digits(m as nat) + acc@,
        decreases m,
    {
        let d = digit_to_char(m % 10);
        acc.insert(0, d);
        proof {
            assert(nat_digits(m as nat) == nat_digits((m / 10) as nat).push(digit_char((m % 10) as nat)));
            assert(nat_digits(mag) =~= nat_digits((m / 10) as nat) + acc@);
        }
        m = m / 10;
    }
    let first = digit_to_char(m);
    acc.insert(0, first);
    assert(nat_digits(mag) =~= acc@);
    if n < 0 {
        push_char(s, '-');
    }
    let ghost start = s@;
    let mut i: usize = 0;
    while i < acc.len()
        invariant
            i <= acc@.len(),
            s@ == start + acc@.subrange(0, i as int),
        decreases acc@.len() - i,
    {
        push_char(s, acc[i]);
        assert(acc@.subrange(0, i + 1) =~= acc@.subrange(0, i as int).push(acc@[i as int]));
        i = i + 1;
    }
    assert(acc@.subrange(0, acc@.len() as int) =~= acc@);
    assert(s@ =~= old(s)@ + int_text(n as int));
}


/// The value of a run of digits, read most significant first.
pub open spec fn digits_value(s: Seq<char>) -> int
    decreases s.len(),
{
    if s.len() == 0 {
        0
    } else {
        digits_value(s.drop_last()) * 10 + digit_value(s.last())
    }
}

pub open spec fn all_digits(s: Seq<char>) -> bool {
    forall|i: int| 0 <= i < s.len() ==> #[trigger] is_digit(s[i])
}

/// Whether `v` fits in an `i32`.
pub open spec fn in_i32(v: int) -> bool {
    i32::MIN <= v <= i32::MAX
}

/// Reading `s` as an `i32`: an optional `+` or `-`, then at least one digit and nothing
/// else; `None` when the form is wrong or the value does not fit.
pub open spec fn parse_i32_text(s: Seq<char>) -> Option<int> {
    let neg = s.len() > 0 && s[0] == '-';
    let body = if s.len() > 0 && (s[0] == '-' || s[0] == '+') {
        s.drop_first()
    } else {
        s
    };
    let v = if neg {
        -digits_value(body)
    } else {
        digits_value(body)
    };
    if body.len() > 0 && all_digits(body) && in_i32(v) {
        Some(v)
    } else {
        None
    }
}

proof fn lemma_digits_value_nonneg(s: Seq<char>)
    requires
        all_digits(s),
    ensures
        digits_value(s) >= 0,
    decreases s.len(),
{
    if s.len() > 0 {
        assert(is_digit(s[s.len() - 1]));
        lemma_digits_value_nonneg(s.drop_last());
    }
}

proof fn lemma_digits_value_grows(s: Seq<char>, c: char)
    requires
        all_digits(s),
        is_digit(c),
    ensures
        digits_value(s.push(c)) >= digits_value(s),
{
    lemma_digits_value_nonneg(s);
    assert(s.push(c).drop_last() =~= s);
}

/// Reads an `i32` from `s[start..end]`.
pub fn parse_i32(s: &Vec<char>, start: usize, end: usize) -> (r: Option<i32>)
    requires
        start <= end <= s@.len(),
    ensures
        match r {
            Some(v) => parse_i32_text(s@.subrange(start as int, end as int)) == Some(v as int),
            None => parse_i32_text(s@.subrange(start as int, end as int)) is None,
        },
{
    let ghost t = s@.subrange(start as int, end as int);
    let mut i: usize = start;
    let mut neg = false;
    if i < end && (s[i] == '-' || s[i] == '+') {
        neg = s[i] == '-';
        i = i + 1;
    }
    let body_start = i;
    let ghost body = s@.subrange(body_start as int, end as int);
    assert(body =~= (if t.len() > 0 && (t[0] == '-' || t[0] == '+') { t.drop_first() } else { t }));
    if i == end {
        return None;
    }
    // The magnitude read so far, capped just above the largest one an i32 can take.
    let cap: u64 = 2147483649;
    let mut acc: u64 = 0;
    while i < end
        invariant
            body_start <= i <= end <= s@.len(),
            body == s@.subrange(body_start as int, end as int),
            all_digits(s@.subrange(body_start as int, i as int)),
            acc as int == if digits_value(s@.subrange(body_start as int, i as int)) < cap {
                digits_value(s@.subrange(body_start as int, i as int))
            } else {
                cap as int
            },
            cap == 2147483649,
            t == s@.subrange(start as int, end as int),
            neg == (t.len() > 0 && t[0] == '-'),
            body == (if t.len() > 0 && (t[0] == '-' || t[0] == '+') { t.drop_first() } else { t }),
        decreases end - i,
    {
        let c = s[i];
        let ghost pre = s@.subrange(body_start as int, i as int);
        assert(s@.subrange(body_start as int, i + 1) =~= pre.push(c));
        if !('0' <= c && c <= '9') {
            assert(!all_digits(body)) by {
                assert(body[i - body_start] == c);
                assert(!is_digit(body[i - body_start]));
            }
            return None;
        }
        let d = (c as u32 - '0' as u32) as u64;
        proof {
            lemma_digits_value_grows(pre, c);
            lemma_digits_value_nonneg(pre);
            assert(pre.push(c).drop_last() =~= pre);
            assert(digits_value(pre.push(c)) == digits_value(pre) * 10 + d);
        }
        if acc >= cap {
            acc = cap;
        } else {
            let next = acc * 10 + d;
            acc = if next < cap { next } else { cap };
        }
        i = i + 1;
    }
    assert(s@.subrange(body_start as int, i as int) =~= body);
    proof {
        lemma_digits_value_nonneg(body);
    }
    assert(neg == (t.len() > 0 && t[0] == '-'));
    if neg {
        if acc <= 2147483648 {
            Some((0i64 - acc as i64) as i32)
        } else {
            None
        }
    } else {
        if acc <= 2147483647 {
            Some(acc as i32)
        } else {
            None
        }
    }
}


proof fn lemma_digit_char(d: nat)
    requires
        d < 10,
    ensures
        is_digit(digit_char(d)),
        digit_value(digit_char(d)) == d,
{
}

pub proof fn lemma_nat_digits(n: nat)
    ensures
        nat_digits(n).len() > 0,
        all_digits(nat_digits(n)),
        digits_value(nat_digits(n)) == n,
    decreases n,
{
    if n < 10 {
        lemma_digit_char(n);
        assert(nat_digits(n).drop_last() =~= Seq::<char>::empty());
        assert(digits_value(Seq::<char>::empty()) == 0);
    } else {
        lemma_nat_digits(n / 10);
        lemma_digit_char(n % 10);
        let s = nat_digits(n / 10);
        assert(nat_digits(n).drop_last() =~= s);
        assert((n / 10) * 10 + n % 10 == n) by {
            vstd::arithmetic::div_mod::lemma_fundamental_div_mod(n as int, 10);
        }
        assert(digits_value(nat_digits(n)) == digits_value(s) * 10 + (n % 10));
        assert forall|i: int| 0 <= i < nat_digits(n).len() implies #[trigger] is_digit(
            nat_digits(n)[i],
        ) by {
            if i < s.len() {
                assert(nat_digits(n)[i] == s[i]);
            }
        }
    }
}

/// Reading back the decimal text of any `i32` gives the same number.
pub proof fn lemma_parse_int_text(n: int)
    requires
        in_i32(n),
    ensures
        parse_i32_text(int_text(n)) == Some(n),
{
    if n < 0 {
        let m = (-n) as nat;
        lemma_nat_digits(m);
        assert(int_text(n).drop_first() =~= nat_digits(m));
    } else {
        lemma_nat_digits(n as nat);
        assert(is_digit(int_text(n)[0]));
    }
}

/// The text of a flag: `true` or `false`.
pub open spec fn flag_text(b: bool) -> Seq<char> {
    if b {
        seq!['t', 'r', 'u', 'e']
    } else {
        seq!['f', 'a', 'l', 's', 'e']
    }
}

/// Reading a flag: exactly `true` or `false`, anything else is `None`.
pub open spec fn parse_flag_text(s: Seq<char>) -> Option<bool> {
    if s == flag_text(true) {
        Some(true)
    } else if s == flag_text(false) {
        Some(false)
    } else {
        None
    }
}

/// Reads a flag from `s[start..end]`.
pub fn parse_flag(s: &Vec<char>, start: usize, end: usize) -> (r: Option<bool>)
    requires
        start <= end <= s@.len(),
    ensures
        r == parse_flag_text(s@.subrange(start as int, end as int)),
{
    let ghost t = s@.subrange(start as int, end as int);
    let n = end - start;
    assert(t.len() == n);
    assert(forall|k: int| 0 <= k < n ==> t[k] == s@[start + k]);
    if n == 4 && s[start] == 't' && s[start + 1] == 'r' && s[start + 2] == 'u' && s[start + 3] == 'e' {
        assert(t =~= flag_text(true));
        Some(true)
    } else if n == 5 && s[start] == 'f' && s[start + 1] == 'a' && s[start + 2] == 'l'
        && s[start + 3] == 's' && s[start + 4] == 'e' {
        assert(t =~= flag_text(false));
        Some(false)
    } else {
        assert(t != flag_text(true) && t != flag_text(false)) by {
            if t == flag_text(true) {
                assert(t[0] == 't' && t[1] == 'r' && t[2] == 'u' && t[3] == 'e');
            }
            if t == flag_text(false) {
                assert(t[0] == 'f' && t[1] == 'a' && t[2] == 'l' && t[3] == 's' && t[4] == 'e');
            }
        }
        None
    }
}

/// Appends the text of a flag.
pub fn push_flag(s: &mut String, b: bool)
    ensures
        final(s)@ == old(s)@ + flag_text(b),
{
    if b {
        push_char(s, 't');
        push_char(s, 'r');
        push_char(s, 'u');
        push_char(s, 'e');
    } else {
        push_char(s, 'f');
        push_char(s, 'a');
        push_char(s, 'l');
        push_char(s, 's');
        push_char(s, 'e');
    }
    assert(final(s)@ =~= old(s)@ + flag_text(b));
}

/// Scanning `s` for `sep` from the left: the pieces closed so far, and the open one.
pub open spec fn split_scan(s: Seq<char>, sep: char) -> (Seq<Seq<char>>, Seq<char>)
    decreases s.len(),
{
    if s.len() == 0 {
        (Seq::empty(), Seq::empty())
    } else {
        let (done, cur) = split_scan(s.drop_last(), sep);
        if s.last() == sep {
            (done.push(cur), Seq::empty())
        } else {
            (done, cur.push(s.last()))
        }
    }
}

/// The pieces of `s` between occurrences of `sep`; `k` separators give `k + 1` pieces.
pub open spec fn split_on(s: Seq<char>, sep: char) -> Seq<Seq<char>> {
    split_scan(s, sep).0.push(split_scan(s, sep).1)
}

/// Splits `s` at every `sep`.
pub fn split_chars(s: &Vec<char>, sep: char) -> (r: Vec<Vec<char>>)
    ensures
        r.deep_view() == split_on(s@, sep),
{
    let mut done: Vec<Vec<char>> = Vec::new();
    let mut cur: Vec<char> = Vec::new();
    let mut i: usize = 0;
    while i < s.len()
        invariant
            i <= s@.len(),
            split_scan(s@.subrange(0, i as int), sep) == (done.deep_view(), cur@),
        decreases s@.len() - i,
    {
        let c = s[i];
        assert(s@.subrange(0, i + 1).drop_last() =~= s@.subrange(0, i as int));
        if c == sep {
            let ghost before = done.deep_view();
            let piece = cur;
            assert(piece.deep_view() =~= piece@);
            done.push(piece);
            cur = Vec::new();
            assert(done.deep_view() =~= before.push(piece@));
        } else {
            cur.push(c);
        }
        i = i + 1;
    }
    assert(s@.subrange(0, i as int) =~= s@);
    let ghost before = done.deep_view();
    let last = cur;
    assert(last.deep_view() =~= last@);
    done.push(last);
    assert(done.deep_view() =~= before.push(last@));
    done
}

/// The characters of `s`, in order.
pub fn chars_of(s: &str) -> (r: Vec<char>)
    ensures
        r@ == s@,
{
    let mut v: Vec<char> = Vec::new();
    for c in it: s.chars()
        invariant
            v@ == it.seq().subrange(0, it.index() as int),
    {
        v.push(c);
    }
    v
}

/// The string holding exactly the characters of `v`.
pub fn string_of(v: &Vec<char>) -> (r: String)
    ensures
        r@ == v@,
{
    let mut r = String::new();
    let mut i: usize = 0;
    while i < v.len()
        invariant
            i <= v@.len(),
            r@ == v@.subrange(0, i as int),
        decreases v@.len() - i,
    {
        push_char(&mut r, v[i]);
        assert(v@.subrange(0, i + 1) =~= v@.subrange(0, i as int).push(v@[i as int]));
        i = i + 1;
    }
    assert(v@.subrange(0, i as int) =~= v@);
    r
}


/// Neither a digit nor a sign is `sep`, so the decimal text of a number never holds it.
pub proof fn lemma_int_text_lacks(n: int, sep: char)
    requires
        sep != '-',
        !is_digit(sep),
    ensures
        !int_text(n).contains(sep),
{
    let m = if n < 0 { (-n) as nat } else { n as nat };
    lemma_nat_digits(m);
    if int_text(n).contains(sep) {
        let i = choose|i: int| 0 <= i < int_text(n).len() && int_text(n)[i] == sep;
        if n < 0 {
            assert(int_text(n)[i] == nat_digits(m)[i - 1]);
        } else {
            assert(int_text(n)[i] == nat_digits(m)[i]);
        }
    }
}

/// A character missing from two sequences is missing from their concatenation.
pub proof fn lemma_concat_lacks(x: Seq<char>, y: Seq<char>, c: char)
    requires
        !x.contains(c),
        !y.contains(c),
    ensures
        !(x + y).contains(c),
{
    if (x + y).contains(c) {
        let i = choose|i: int| 0 <= i < (x + y).len() && (x + y)[i] == c;
        if i < x.len() {
            assert(x[i] == c);
        } else {
            assert(y[i - x.len()] == c);
        }
    }
}

/// Scanning on past a piece without `sep` only extends the open piece.
pub proof fn lemma_scan_extend(p: Seq<char>, t: Seq<char>, sep: char)
    requires
        !t.contains(sep),
    ensures
        split_scan(p + t, sep) == (split_scan(p, sep).0, split_scan(p, sep).1 + t),
    decreases t.len(),
{
    if t.len() == 0 {
        assert(p + t =~= p);
        assert(split_scan(p, sep).1 + t =~= split_scan(p, sep).1);
    } else {
        let u = t.drop_last();
        assert(!u.contains(sep)) by {
            if u.contains(sep) {
                let i = choose|i: int| 0 <= i < u.len() && u[i] == sep;
                assert(t[i] == sep);
            }
        }
        lemma_scan_extend(p, u, sep);
        assert((p + t).drop_last() =~= p + u);
        assert(t.last() != sep) by {
            assert(t[t.len() - 1] == t.last());
        }
        assert((split_scan(p, sep).1 + u).push(t.last()) =~= split_scan(p, sep).1 + t);
    }
}

/// Reaching `sep` closes the open piece.
pub proof fn lemma_scan_sep(p: Seq<char>, sep: char)
    ensures
        split_scan(p.push(sep), sep) == (
            split_scan(p, sep).0.push(split_scan(p, sep).1),
            Seq::<char>::empty(),
        ),
{
    assert(p.push(sep).drop_last() =~= p);
}

/// Pieces without `sep`, each followed by `sep`, split back into those pieces.
pub proof fn lemma_split_pieces(a: Seq<char>, b: Seq<char>, c: Seq<char>, sep: char)
    requires
        !a.contains(sep),
        !b.contains(sep),
        !c.contains(sep),
    ensures
        split_on(a + seq![sep] + b + seq![sep] + c, sep) == seq![a, b, c],
{
    let e = Seq::<char>::empty();
    assert(split_scan(e, sep) == (Seq::<Seq<char>>::empty(), e));
    lemma_scan_extend(e, a, sep);
    assert(e + a =~= a);
    lemma_scan_sep(a, sep);
    let s1 = a.push(sep);
    assert(split_scan(s1, sep) == (seq![a], e)) by {
        assert(Seq::<Seq<char>>::empty().push(a) =~= seq![a]);
        assert(e + a =~= a);
    }
    lemma_scan_extend(s1, b, sep);
    assert(e + b =~= b);
    lemma_scan_sep(s1 + b, sep);
    let s2 = (s1 + b).push(sep);
    assert(split_scan(s2, sep) == (seq![a, b], e)) by {
        assert(seq![a].push(b) =~= seq![a, b]);
    }
    lemma_scan_extend(s2, c, sep);
    assert(e + c =~= c);
    assert(s2 + c =~= a + seq![sep] + b + seq![sep] + c);
    assert(seq![a, b].push(c) =~= seq![a, b, c]);
}

/// The flag texts end in `e`.
pub proof fn lemma_flag_text(b: bool)
    ensures
        flag_text(b).len() > 0,
        flag_text(b).last() == 'e',
        !flag_text(b).contains('|'),
        !flag_text(b).contains('\n'),
        parse_flag_text(flag_text(b)) == Some(b),
{
    if flag_text(b).contains('|') {
        let i = choose|i: int| 0 <= i < flag_text(b).len() && flag_text(b)[i] == '|';
    }
    if flag_text(b).contains('\n') {
        let i = choose|i: int| 0 <= i < flag_text(b).len() && flag_text(b)[i] == '\n';
    }
    if !b {
        assert(flag_text(false) != flag_text(true)) by {
            assert(flag_text(false).len() != flag_text(true).len());
        }
    }
}

} // verus!

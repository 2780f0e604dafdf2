//! Strings: joining, comparing, trimming, searching and sorting.
use vstd::prelude::*;

verus! {

/// `String::push` appends one character.
pub assume_specification[ String::push ](s: &mut String, c: char)
    ensures
        final(s)@ == old(s)@.push(c),
;

/// The characters with the Unicode property White_Space.
pub open spec fn is_white(c: char) -> bool {
    let u = c as u32;
    ||| 0x09 <= u <= 0x0d
    ||| u == 0x20
    ||| u == 0x85
    ||| u == 0xa0
    ||| u == 0x1680
    ||| 0x2000 <= u <= 0x200a
    ||| u == 0x2028
    ||| u == 0x2029
    ||| u == 0x202f
    ||| u == 0x205f
    ||| u == 0x3000
}

/// `s` without the white space in front.
pub open spec fn trim_start(s: Seq<char>) -> Seq<char>
    decreases s.len(),
{
    if s.len() > 0 && is_white(s[0]) {
        trim_start(s.skip(1))
    } else {
        s
    }
}

/// `s` without the white space at its end.
pub open spec fn trim_end(s: Seq<char>) -> Seq<char>
    decreases s.len(),
{
    if s.len() > 0 && is_white(s.last()) {
        trim_end(s.drop_last())
    } else {
        s
    }
}

/// `s` without the white space at both ends.
pub open spec fn trimmed(s: Seq<char>) -> Seq<char> {
    trim_end(trim_start(s))
}

pub open spec fn upper_char(c: char) -> char {
    if 'a' <= c <= 'z' {
        (c as u32 - 32) as char
    } else {
        c
    }
}

/// `s` with its ASCII letters in upper case.
pub open spec fn upper(s: Seq<char>) -> Seq<char> {
    s.map_values(|c: char| upper_char(c))
}

pub open spec fn digit(d: int) -> char {
    (d + 48) as char
}

/// The decimal digits of `n`.
pub open spec fn decimal(n: int) -> Seq<char>
    decreases n,
{
    if n < 10 {
        seq![digit(n)]
    } else {
        decimal(n / 10).push(digit(n % 10))
    }
}

/// Whether `part` occurs in `s`.
pub open spec fn contains(s: Seq<char>, part: Seq<char>) -> bool {
    exists|i: int|
        0 <= i <= s.len() - part.len() && #[trigger] s.subrange(i, i + part.len()) == part
}

/// The order of strings by code points.
pub open spec fn before(a: Seq<char>, b: Seq<char>) -> bool
    decreases b.len(),
{
    if b.len() == 0 {
        false
    } else if a.len() == 0 {
        true
    } else if a[0] == b[0] {
        before(a.skip(1), b.skip(1))
    } else {
        a[0] < b[0]
    }
}

/// The views of a list of strings.
pub open spec fn views(v: Seq<String>) -> Seq<Seq<char>> {
    v.map_values(|s: String| s@)
}

/// The strings one after another, with `sep` between them.
pub open spec fn joined(list: Seq<Seq<char>>, sep: Seq<char>) -> Seq<char>
    decreases list.len(),
{
    if list.len() == 0 {
        Seq::empty()
    } else if list.len() == 1 {
        list[0]
    } else {
        joined(list.drop_last(), sep) + sep + list.last()
    }
}

pub fn same(a: &str, b: &str) -> (r: bool)
    ensures
        r == (a@ == b@),
{
    a.to_owned() == b.to_owned()
}

/// `a` followed by `b`.
pub fn cat(a: &str, b: &str) -> (r: String)
    ensures
        r@ == a@ + b@,
{
    let mut s: String = a.to_owned();
    s.append(b);
    s
}

fn white(c: char) -> (r: bool)
    ensures
        r == is_white(c),
{
    let u: u32 = c as u32;
    (0x09 <= u && u <= 0x0d) || u == 0x20 || u == 0x85 || u == 0xa0 || u == 0x1680
        || (0x2000 <= u && u <= 0x200a) || u == 0x2028 || u == 0x2029 || u == 0x202f
        || u == 0x205f || u == 0x3000
}

pub fn chars(s: &str) -> (v: Vec<char>)
    ensures
        v@ == s@,
{
    let n: usize = s.unicode_len();
    let mut v: Vec<char> = Vec::new();
    let mut i: usize = 0;
    while i < n
        invariant
            n == s@.len(),
            i <= n,
            v@ == s@.take(i as int),
        decreases n - i,
    {
        v.push(s.get_char(i));
        proof {
            assert(s@.take(i + 1) =~= s@.take(i as int).push(s@[i as int]));
        }
        i = i + 1;
    }
    proof {
        assert(s@.take(n as int) =~= s@);
    }
    v
}

pub fn trim(s: &str) -> (r: &str)
    ensures
        r@ == trimmed(s@),
{
    let n: usize = s.unicode_len();
    let mut i: usize = 0;
    proof {
        assert(s@.skip(0) =~= s@);
    }
    while i < n && white(s.get_char(i))
        invariant
            n == s@.len(),
            i <= n,
            trim_start(s@) == trim_start(s@.skip(i as int)),
        decreases n - i,
    {
        proof {
            assert(s@.skip(i as int).skip(1) =~= s@.skip(i + 1));
        }
        i = i + 1;
    }
    let mut j: usize = n;
    let ghost t = s@.skip(i as int);
    proof {
        assert(trim_start(s@) == t);
        assert(s@.subrange(i as int, n as int) =~= t);
    }
    while i < j && white(s.get_char(j - 1))
        invariant
            n == s@.len(),
            i <= j <= n,
            trim_end(t) == trim_end(s@.subrange(i as int, j as int)),
        decreases j,
    {
        proof {
            assert(s@.subrange(i as int, j as int).drop_last() =~= s@.subrange(i as int, j - 1));
        }
        j = j - 1;
    }
    s.substring_char(i, j)
}

pub fn to_upper(s: &str) -> (r: String)
    ensures
        r@ == upper(s@),
{
    let v: Vec<char> = chars(s);
    let mut r: String = String::new();
    let mut i: usize = 0;
    while i < v.len()
        invariant
            v@ == s@,
            i <= v.len(),
            r@ == upper(s@).take(i as int),
        decreases v.len() - i,
    {
        let c: char = v[i];
        let d: char = if 'a' <= c && c <= 'z' { ((c as u8) - 32) as char } else { c };
        r.push(d);
        proof {
            assert(upper(s@).take(i + 1) =~= upper(s@).take(i as int).push(upper_char(c)));
        }
        i = i + 1;
    }
    proof {
        assert(upper(s@).take(v.len() as int) =~= upper(s@));
    }
    r
}

pub fn show_int(n: u64) -> (r: String)
    ensures
        r@ == decimal(n as int),
    decreases n,
{
    let d: char = ((n % 10) as u8 + 48) as char;
    let mut s: String = if n < 10 { String::new() } else { show_int(n / 10) };
    s.push(d);
    proof {
        if n < 10 {
            assert(s@ =~= seq![digit(n as int)]);
        }
    }
    s
}

/// A signed number in decimal.
pub open spec fn decimal_signed(n: int) -> Seq<char> {
    if n < 0 {
        "-"@ + decimal(-n)
    } else {
        decimal(n)
    }
}

pub fn show_signed(n: i64) -> (r: String)
    ensures
        r@ == decimal_signed(n as int),
{
    if n < 0 {
        let m: u64 = if n == i64::MIN { 0x8000_0000_0000_0000 } else { (-n) as u64 };
        cat("-", show_int(m).as_str())
    } else {
        show_int(n as u64)
    }
}

pub fn has_part(s: &str, part: &str) -> (r: bool)
    ensures
        r == contains(s@, part@),
{
    let n: usize = s.unicode_len();
    let m: usize = part.unicode_len();
    if m > n {
        return false;
    }
    let mut i: usize = 0;
    while i <= n - m
        invariant
            n == s@.len(),
            m == part@.len(),
            m <= n,
            i <= n - m + 1,
            forall|k: int| 0 <= k < i ==> #[trigger] s@.subrange(k, k + m) != part@,
        decreases n - m + 1 - i,
    {
        if same(s.substring_char(i, i + m), part) {
            return true;
        }
        if i == n - m {
            return false;
        }
        i = i + 1;
    }
    false
}

/// Whether `a` comes before `b`.
pub fn text_before(a: &str, b: &str) -> (r: bool)
    ensures
        r == before(a@, b@),
{
    let u: Vec<char> = chars(a);
    let v: Vec<char> = chars(b);
    let mut i: usize = 0;
    proof {
        assert(a@.skip(0) =~= a@);
        assert(b@.skip(0) =~= b@);
    }
    while i < u.len() && i < v.len() && u[i] == v[i]
        invariant
            u@ == a@,
            v@ == b@,
            i <= u.len(),
            i <= v.len(),
            before(a@, b@) == before(a@.skip(i as int), b@.skip(i as int)),
        decreases u.len() - i,
    {
        proof {
            assert(a@.skip(i as int).skip(1) =~= a@.skip(i + 1));
            assert(b@.skip(i as int).skip(1) =~= b@.skip(i + 1));
        }
        i = i + 1;
    }
    if i >= v.len() {
        false
    } else if i >= u.len() {
        true
    } else {
        u[i] < v[i]
    }
}

pub fn join(list: &Vec<String>, sep: &str) -> (r: String)
    ensures
        r@ == joined(views(list@), sep@),
{
    let mut r: String = String::new();
    let mut i: usize = 0;
    let ghost all = views(list@);
    while i < list.len()
        invariant
            i <= list.len(),
            all == views(list@),
            r@ == joined(all.take(i as int), sep@),
        decreases list.len() - i,
    {
        if i > 0 {
            r.append(sep);
        }
        r.append(list[i].as_str());
        proof {
            assert(all.take(i + 1).drop_last() =~= all.take(i as int));
            assert(all.take(i + 1).last() == list[i as int]@);
            if i == 0 {
                assert(r@ =~= all.take(1)[0]);
            }
        }
        i = i + 1;
    }
    proof {
        assert(all.take(list.len() as int) =~= all);
    }
    r
}

/// Where `s` first stands in the list.
pub open spec fn index_in(list: Seq<Seq<char>>, s: Seq<char>) -> Option<int>
    decreases list.len(),
{
    if list.len() == 0 {
        None
    } else {
        match index_in(list.drop_last(), s) {
            Some(i) => Some(i),
            None => if list.last() == s {
                Some(list.len() - 1)
            } else {
                None
            },
        }
    }
}

pub proof fn lemma_index_in(list: Seq<Seq<char>>, s: Seq<char>)
    ensures
        match index_in(list, s) {
            Some(i) => 0 <= i < list.len() && list[i] == s
                && forall|k: int| 0 <= k < i ==> list[k] != s,
            None => !list.contains(s),
        },
    decreases list.len(),
{
    if list.len() > 0 {
        let front = list.drop_last();
        lemma_index_in(front, s);
        assert forall|k: int| 0 <= k < front.len() implies list[k] == front[k] && front.contains(
            #[trigger] list[k],
        ) by {
            assert(front[k] == list[k]);
        }
        if index_in(list, s) is None {
            assert forall|k: int| 0 <= k < list.len() implies list[k] != s by {
                if k < front.len() {
                    assert(front.contains(list[k]));
                }
            }
        }
    }
}

pub fn position(list: &Vec<String>, s: &str) -> (r: Option<usize>)
    ensures
        match r {
            Some(i) => index_in(views(list@), s@) == Some(i as int) && i < list@.len(),
            None => index_in(views(list@), s@) is None,
        },
{
    let ghost all = views(list@);
    let mut i: usize = 0;
    while i < list.len()
        invariant
            all == views(list@),
            i <= list.len(),
            forall|k: int| 0 <= k < i ==> all[k] != s@,
        decreases list.len() - i,
    {
        proof {
            lemma_index_in(all, s@);
        }
        if same(list[i].as_str(), s) {
            proof {
                assert(all[i as int] == s@);
                assert(all.contains(s@));
            }
            return Some(i);
        }
        i = i + 1;
    }
    proof {
        lemma_index_in(all, s@);
    }
    None
}

/// Zero or one item.
pub open spec fn given_if(yes: bool, item: Seq<char>) -> Seq<Seq<char>> {
    if yes {
        seq![item]
    } else {
        Seq::empty()
    }
}

/// Adds an item to the list where `yes` holds.
pub fn push_if(list: &mut Vec<String>, yes: bool, item: &str)
    ensures
        views(final(list)@) == views(old(list)@) + given_if(yes, item@),
{
    let ghost before = list@;
    if yes {
        list.push(item.to_owned());
    }
    proof {
        assert(views(list@) =~= views(before) + given_if(yes, item@));
    }
}

} // verus!

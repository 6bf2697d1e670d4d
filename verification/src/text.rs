//! Text helpers: Unicode white space, trimming, decimal digits and the
//! lexicographic order of strings.

use vstd::prelude::*;

verus! {

/// The characters with the Unicode `White_Space` property (PropList.txt),
/// which is what `char::is_whitespace` tests.
pub open spec fn white_space(c: char) -> bool {
    let u = c as u32;
    ||| 0x09 <= u <= 0x0d
    ||| u == 0x20
    ||| u == 0x85
    ||| u == 0xa0
    ||| u == 0x1680
    ||| 0x2000 <= u <= 0x200a
    ||| u == 0x2028
    ||| u == 0x2029
    ||| u == 0x202f
    ||| u == 0x205f
    ||| u == 0x3000
}

/// `s` without its leading white space.
pub open spec fn trim_start(s: Seq<char>) -> Seq<char>
    decreases s.len(),
{
    if s.len() > 0 && white_space(s[0]) {
        trim_start(s.drop_first())
    } else {
        s
    }
}

/// `s` without its trailing white space.
pub open spec fn trim_end(s: Seq<char>) -> Seq<char>
    decreases s.len(),
{
    if s.len() > 0 && white_space(s.last()) {
        trim_end(s.drop_last())
    } else {
        s
    }
}

/// `s` without leading and trailing white space, as `str::trim` gives it.
pub open spec fn trimmed(s: Seq<char>) -> Seq<char> {
    trim_end(trim_start(s))
}

/// Decides `white_space`.
pub fn is_white_space(c: char) -> (r: bool)
    ensures
        r == white_space(c),
{
    let u = c as u32;
    (0x09 <= u && u <= 0x0d) || u == 0x20 || u == 0x85 || u == 0xa0 || u == 0x1680 || (0x2000
        <= u && u <= 0x200a) || u == 0x2028 || u == 0x2029 || u == 0x202f || u == 0x205f || u
        == 0x3000
}

proof fn lemma_trim_start_skip(s: Seq<char>, i: int)
    requires
        0 <= i <= s.len(),
        forall|k: int| 0 <= k < i ==> white_space(#[trigger] s[k]),
    ensures
        trim_start(s) == trim_start(s.subrange(i, s.len() as int)),
    decreases i,
{
    if i > 0 {
        assert(white_space(s[0]));
        let t = s.drop_first();
        assert forall|k: int| 0 <= k < i - 1 implies white_space(#[trigger] t[k]) by {
            assert(t[k] == s[k + 1]);
        }
        lemma_trim_start_skip(t, i - 1);
        assert(t.subrange(i - 1, t.len() as int) =~= s.subrange(i, s.len() as int));
    } else {
        assert(s.subrange(0, s.len() as int) =~= s);
    }
}

proof fn lemma_trim_end_cut(s: Seq<char>, j: int)
    requires
        0 <= j <= s.len(),
        forall|k: int| j <= k < s.len() ==> white_space(#[trigger] s[k]),
    ensures
        trim_end(s) == trim_end(s.subrange(0, j)),
    decreases s.len() - j,
{
    if j < s.len() {
        assert(white_space(s.last()));
        let t = s.drop_last();
        assert forall|k: int| j <= k < t.len() implies white_space(#[trigger] t[k]) by {
            assert(t[k] == s[k]);
        }
        lemma_trim_end_cut(t, j);
        assert(t.subrange(0, j) =~= s.subrange(0, j));
    } else {
        assert(s.subrange(0, j) =~= s);
    }
}

/// The text of `s` without leading and trailing white space.
pub fn trim_text(s: &str) -> (r: String)
    ensures
        r@ == trimmed(s@),
{
    let n = s.unicode_len();
    let mut i: usize = 0;
    while i < n && is_white_space(s.get_char(i))
        invariant
            n == s@.len(),
            i <= n,
            forall|k: int| 0 <= k < i ==> white_space(#[trigger] s@[k]),
        decreases n - i,
    {
        i = i + 1;
    }
    proof {
        lemma_trim_start_skip(s@, i as int);
    }
    let ghost rest = s@.subrange(i as int, n as int);
    assert(trim_start(rest) == rest);
    let mut j: usize = n;
    while j > i && is_white_space(s.get_char(j - 1))
        invariant
            n == s@.len(),
            i <= j <= n,
            rest == s@.subrange(i as int, n as int),
            forall|k: int| j <= k < n ==> white_space(#[trigger] s@[k]),
        decreases j,
    {
        j = j - 1;
    }
    proof {
        let m = (j - i) as int;
        assert forall|k: int| m <= k < rest.len() implies white_space(#[trigger] rest[k]) by {
            assert(rest[k] == s@[k + i]);
        }
        lemma_trim_end_cut(rest, m);
        let core = rest.subrange(0, m);
        assert(core =~= s@.subrange(i as int, j as int));
        assert(trim_end(core) == core);
    }
    String::from_str(s.substring_char(i, j))
}


/// The decimal digit for `d`, which is below ten.
pub open spec fn digit(d: nat) -> char {
    (('0' as u32) + d) as char
}

/// The decimal representation of `n`, without leading zeros, as `to_string` gives it.
pub open spec fn decimal(n: nat) -> Seq<char>
    decreases n,
{
    if n < 10 {
        seq![digit(n)]
    } else {
        decimal(n / 10).push(digit(n % 10))
    }
}

/// A decimal representation has at least one digit, and one exactly below ten.
pub proof fn lemma_decimal_single(n: nat)
    ensures
        decimal(n).len() >= 1,
        (decimal(n).len() == 1) == (n < 10),
    decreases n,
{
    if n >= 10 {
        lemma_decimal_single(n / 10);
    }
}

/// Different numbers have different decimal representations.
pub proof fn lemma_decimal_injective(a: nat, b: nat)
    requires
        decimal(a) == decimal(b),
    ensures
        a == b,
    decreases a,
{
    lemma_decimal_single(a);
    lemma_decimal_single(b);
    if a >= 10 && b >= 10 {
        let da = decimal(a);
        let db = decimal(b);
        assert(da.drop_last() =~= decimal(a / 10));
        assert(db.drop_last() =~= decimal(b / 10));
        lemma_decimal_injective(a / 10, b / 10);
        assert(digit(a % 10) == da.last());
        assert(digit(b % 10) == db.last());
        assert(a % 10 == b % 10);
    } else if a < 10 && b < 10 {
        assert(decimal(a)[0] == digit(a));
        assert(decimal(b)[0] == digit(b));
    }
}

/// The decimal digits of `n`.
pub fn decimal_text(n: u128) -> (r: String)
    ensures
        r@ == decimal(n as nat),
    decreases n,
{
    let digits = "0123456789";
    proof {
        reveal_strlit("0123456789");
    }
    if n < 10 {
        let k = n as usize;
        let r = String::from_str(digits.substring_char(k, k + 1));
        assert(r@ =~= seq![digit(n as nat)]);
        r
    } else {
        let mut r = decimal_text(n / 10);
        let k = (n % 10) as usize;
        let d = digits.substring_char(k, k + 1);
        assert(d@ =~= seq![digit((n % 10) as nat)]);
        r.append(d);
        assert(r@ =~= decimal((n / 10) as nat).push(digit((n % 10) as nat)));
        r
    }
}

/// `a` comes strictly before `b` in the lexicographic order of their characters,
/// which is the order `str` compares by (UTF-8 keeps the order of code points).
pub open spec fn text_less(a: Seq<char>, b: Seq<char>) -> bool
    decreases a.len(),
{
    if a.len() == 0 {
        b.len() > 0
    } else if b.len() == 0 {
        false
    } else if a[0] < b[0] {
        true
    } else if a[0] > b[0] {
        false
    } else {
        text_less(a.drop_first(), b.drop_first())
    }
}

/// The outcome of comparing two texts.
#[derive(PartialEq, Eq, Structural, Debug, Clone, Copy)]
pub enum Order {
    Less,
    Equal,
    Greater,
}

/// The lexicographic order never puts a text before itself.
pub proof fn lemma_text_less_irreflexive(a: Seq<char>)
    ensures
        !text_less(a, a),
    decreases a.len(),
{
    if a.len() > 0 {
        lemma_text_less_irreflexive(a.drop_first());
    }
}

/// The lexicographic order is transitive.
pub proof fn lemma_text_less_transitive(a: Seq<char>, b: Seq<char>, c: Seq<char>)
    requires
        text_less(a, b),
        text_less(b, c),
    ensures
        text_less(a, c),
    decreases a.len(),
{
    if a.len() > 0 && b.len() > 0 && c.len() > 0 {
        if a[0] == b[0] && b[0] == c[0] {
            lemma_text_less_transitive(a.drop_first(), b.drop_first(), c.drop_first());
        }
    }
}

/// Of two different texts, one comes before the other.
pub proof fn lemma_text_less_total(a: Seq<char>, b: Seq<char>)
    requires
        a != b,
    ensures
        text_less(a, b) || text_less(b, a),
    decreases a.len(),
{
    if a.len() > 0 && b.len() > 0 && a[0] == b[0] {
        if a.drop_first() == b.drop_first() {
            assert(a =~= seq![a[0]] + a.drop_first());
            assert(b =~= seq![b[0]] + b.drop_first());
        }
        lemma_text_less_total(a.drop_first(), b.drop_first());
    } else if a.len() == 0 && b.len() == 0 {
        assert(a =~= b);
    }
}

proof fn lemma_text_less_skip(a: Seq<char>, b: Seq<char>, i: int)
    requires
        0 <= i <= a.len(),
        i <= b.len(),
        a.subrange(0, i) == b.subrange(0, i),
    ensures
        text_less(a, b) == text_less(a.subrange(i, a.len() as int), b.subrange(i, b.len() as int)),
    decreases i,
{
    if i > 0 {
        assert(a[0] == a.subrange(0, i)[0]);
        assert(b[0] == b.subrange(0, i)[0]);
        assert(a.drop_first().subrange(0, i - 1) =~= a.subrange(0, i).drop_first());
        assert(b.drop_first().subrange(0, i - 1) =~= b.subrange(0, i).drop_first());
        lemma_text_less_skip(a.drop_first(), b.drop_first(), i - 1);
        assert(a.drop_first().subrange(i - 1, a.len() - 1) =~= a.subrange(i, a.len() as int));
        assert(b.drop_first().subrange(i - 1, b.len() - 1) =~= b.subrange(i, b.len() as int));
    } else {
        assert(a.subrange(0, a.len() as int) =~= a);
        assert(b.subrange(0, b.len() as int) =~= b);
    }
}

/// Texts are ordered by their first differing character: when `a` and `b` agree
/// before position `k` and `a[k]` is below `b[k]`, `a` comes first.
pub proof fn lemma_text_less_first_difference(a: Seq<char>, b: Seq<char>, k: int)
    requires
        0 <= k < a.len(),
        k < b.len(),
        a.subrange(0, k) == b.subrange(0, k),
        a[k] < b[k],
    ensures
        text_less(a, b),
        !text_less(b, a),
{
    lemma_text_less_skip(a, b, k);
    lemma_text_less_skip(b, a, k);
    let ra = a.subrange(k, a.len() as int);
    let rb = b.subrange(k, b.len() as int);
    assert(ra[0] == a[k]);
    assert(rb[0] == b[k]);
}

/// A text comes before every longer text that it begins.
pub proof fn lemma_text_less_proper_prefix(a: Seq<char>, b: Seq<char>)
    requires
        a.len() < b.len(),
        b.subrange(0, a.len() as int) == a,
    ensures
        text_less(a, b),
        !text_less(b, a),
{
    assert(a.subrange(0, a.len() as int) =~= a);
    lemma_text_less_skip(a, b, a.len() as int);
    lemma_text_less_skip(b, a, a.len() as int);
    assert(a.subrange(a.len() as int, a.len() as int).len() == 0);
}

/// Compares two texts in the order `str` compares by.
pub fn compare_text(a: &str, b: &str) -> (r: Order)
    ensures
        r == Order::Less <==> text_less(a@, b@),
        r == Order::Greater <==> text_less(b@, a@),
        r == Order::Equal <==> a@ == b@,
{
    let la = a.unicode_len();
    let lb = b.unicode_len();
    let mut i: usize = 0;
    while i < la && i < lb
        invariant
            la == a@.len(),
            lb == b@.len(),
            i <= la,
            i <= lb,
            a@.subrange(0, i as int) == b@.subrange(0, i as int),
        decreases la - i,
    {
        let x = a.get_char(i);
        let y = b.get_char(i);
        if x != y {
            proof {
                lemma_text_less_skip(a@, b@, i as int);
                lemma_text_less_skip(b@, a@, i as int);
                let ra = a@.subrange(i as int, la as int);
                let rb = b@.subrange(i as int, lb as int);
                assert(ra[0] == x);
                assert(rb[0] == y);
                assert(a@[i as int] != b@[i as int]);
            }
            if x < y {
                return Order::Less;
            } else {
                return Order::Greater;
            }
        }
        proof {
            assert(a@.subrange(0, i + 1) =~= a@.subrange(0, i as int).push(x));
            assert(b@.subrange(0, i + 1) =~= b@.subrange(0, i as int).push(y));
            assert(x == y);
        }
        i = i + 1;
    }
    proof {
        lemma_text_less_skip(a@, b@, i as int);
        lemma_text_less_skip(b@, a@, i as int);
        if la == lb {
            assert(a@ =~= a@.subrange(0, i as int));
            assert(b@ =~= b@.subrange(0, i as int));
        } else if la < lb {
            assert(a@.len() != b@.len());
        } else {
            assert(a@.len() != b@.len());
        }
    }
    if la < lb {
        Order::Less
    } else if la > lb {
        Order::Greater
    } else {
        Order::Equal
    }
}


/// Whether two texts are the same.
pub fn same_text(a: &str, b: &str) -> (r: bool)
    ensures
        r == (a@ == b@),
{
    match compare_text(a, b) {
        Order::Equal => true,
        _ => false,
    }
}


/// The texts of `v`, each trimmed, without those that are empty once trimmed.
pub open spec fn trimmed_nonempty(v: Seq<Seq<char>>) -> Seq<Seq<char>>
    decreases v.len(),
{
    if v.len() == 0 {
        Seq::empty()
    } else {
        let r = trimmed_nonempty(v.drop_last());
        if trimmed(v.last()).len() == 0 {
            r
        } else {
            r.push(trimmed(v.last()))
        }
    }
}

/// The texts of a list of strings.
pub open spec fn texts(v: Seq<String>) -> Seq<Seq<char>> {
    v.map_values(|s: String| s@)
}

/// Each text of `v` trimmed, without those that are empty once trimmed.
pub fn trim_all(v: &Vec<String>) -> (r: Vec<String>)
    ensures
        texts(r@) == trimmed_nonempty(texts(v@)),
{
    let mut r: Vec<String> = Vec::new();
    let n = v.len();
    assert(texts(v@).subrange(0, 0) =~= Seq::<Seq<char>>::empty());
    for i in 0..n
        invariant
            n == v@.len(),
            texts(r@) == trimmed_nonempty(texts(v@).subrange(0, i as int)),
    {
        let t = trim_text(v[i].as_str());
        let ghost before = texts(v@).subrange(0, i as int);
        let ghost after = texts(v@).subrange(0, i + 1);
        assert(after.drop_last() =~= before);
        assert(after.last() == v@[i as int]@);
        if t.as_str().unicode_len() > 0 {
            let ghost old_r = r@;
            r.push(t);
            assert(texts(r@) =~= texts(old_r).push(t@));
        }
    }
    assert(texts(v@).subrange(0, n as int) =~= texts(v@));
    r
}


proof fn lemma_trim_start_shape(s: Seq<char>)
    ensures
        trim_start(s).len() == 0 || !white_space(trim_start(s)[0]),
    decreases s.len(),
{
    if s.len() > 0 && white_space(s[0]) {
        lemma_trim_start_shape(s.drop_first());
    }
}

proof fn lemma_trim_end_shape(s: Seq<char>)
    ensures
        trim_end(s).len() <= s.len(),
        trim_end(s) == s.subrange(0, trim_end(s).len() as int),
        trim_end(s).len() == 0 || !white_space(trim_end(s).last()),
    decreases s.len(),
{
    if s.len() > 0 && white_space(s.last()) {
        lemma_trim_end_shape(s.drop_last());
        let r = trim_end(s.drop_last());
        assert(s.drop_last().subrange(0, r.len() as int) =~= s.subrange(0, r.len() as int));
    } else {
        assert(s.subrange(0, s.len() as int) =~= s);
    }
}

proof fn lemma_trim_start_index(s: Seq<char>) -> (i: int)
    ensures
        0 <= i <= s.len(),
        trim_start(s) == s.subrange(i, s.len() as int),
        forall|k: int| 0 <= k < i ==> white_space(#[trigger] s[k]),
        i < s.len() ==> !white_space(s[i]),
    decreases s.len(),
{
    if s.len() > 0 && white_space(s[0]) {
        let t = s.drop_first();
        let i = lemma_trim_start_index(t);
        assert(t.subrange(i, t.len() as int) =~= s.subrange(i + 1, s.len() as int));
        assert forall|k: int| 0 <= k < i + 1 implies white_space(#[trigger] s[k]) by {
            if k > 0 {
                assert(s[k] == t[k - 1]);
            }
        }
        i + 1
    } else {
        assert(s.subrange(0, s.len() as int) =~= s);
        0
    }
}

proof fn lemma_trim_end_index(s: Seq<char>) -> (j: int)
    ensures
        0 <= j <= s.len(),
        trim_end(s) == s.subrange(0, j),
        forall|k: int| j <= k < s.len() ==> white_space(#[trigger] s[k]),
        j > 0 ==> !white_space(s[j - 1]),
    decreases s.len(),
{
    if s.len() > 0 && white_space(s.last()) {
        let t = s.drop_last();
        let j = lemma_trim_end_index(t);
        assert(t.subrange(0, j) =~= s.subrange(0, j));
        assert forall|k: int| j <= k < s.len() implies white_space(#[trigger] s[k]) by {
            if k < s.len() - 1 {
                assert(s[k] == t[k]);
            }
        }
        j
    } else {
        assert(s.subrange(0, s.len() as int) =~= s);
        s.len() as int
    }
}

/// Trimming cuts white space from both ends and nothing else: the result is the
/// part of `s` between a run of white space at its start and one at its end, and it
/// neither starts nor ends with white space.
pub proof fn lemma_trimmed_cut(s: Seq<char>)
    ensures
        exists|i: int, j: int|
            {
                &&& 0 <= i <= j <= s.len()
                &&& trimmed(s) == s.subrange(i, j)
                &&& forall|k: int| 0 <= k < i ==> white_space(#[trigger] s[k])
                &&& forall|k: int| j <= k < s.len() ==> white_space(#[trigger] s[k])
                &&& i < j ==> !white_space(s[i]) && !white_space(s[j - 1])
            },
{
    let i = lemma_trim_start_index(s);
    let u = s.subrange(i, s.len() as int);
    let m = lemma_trim_end_index(u);
    let j = i + m;
    assert(trimmed(s) =~= s.subrange(i, j));
    assert forall|k: int| j <= k < s.len() implies white_space(#[trigger] s[k]) by {
        assert(s[k] == u[k - i]);
    }
    if i < j {
        assert(s[i] == u[0]);
        assert(s[j - 1] == u[m - 1]);
        if i >= s.len() {
        }
    }
    assert(0 <= i <= j <= s.len());
}

/// The digits of `decimal(n)` are decimal digits, read back as `n`, with no
/// leading zero.
pub proof fn lemma_decimal_digits(n: nat)
    ensures
        forall|k: int| 0 <= k < decimal(n).len() ==> '0' <= #[trigger] decimal(n)[k] <= '9',
        digits_value(decimal(n)) == n,
        decimal(n).len() > 1 ==> decimal(n)[0] != '0',
    decreases n,
{
    let last = if n >= 10 { n % 10 } else { n };
    assert((digit(last) as u32) == ('0' as u32) + last);
    if n >= 10 {
        lemma_decimal_digits(n / 10);
        let d = decimal(n / 10);
        assert(decimal(n).drop_last() =~= d);
        assert(decimal(n).last() == digit(n % 10));
        assert(digits_value(decimal(n)) == digits_value(d) * 10 + n % 10);
        assert(n == (n / 10) * 10 + n % 10);
        assert forall|k: int| 0 <= k < decimal(n).len() implies '0' <= #[trigger] decimal(n)[k] <= '9' by {
            if k < d.len() {
                assert(decimal(n)[k] == d[k]);
            }
        }
        lemma_decimal_single(n / 10);
        assert(decimal(n)[0] == d[0]);
        if d.len() == 1 {
            assert(n / 10 < 10);
            assert(n / 10 >= 1);
        }
    } else {
        let e = decimal(n);
        assert(e.drop_last() =~= Seq::<char>::empty());
        assert(e.last() == digit(n));
        assert(digits_value(e.drop_last()) == 0);
        assert(((e.last() as u32) - ('0' as u32)) as nat == n);
        assert(digits_value(e) == n);
    }
}

/// The number that a text of decimal digits stands for.
pub open spec fn digits_value(s: Seq<char>) -> nat
    decreases s.len(),
{
    if s.len() == 0 {
        0
    } else {
        digits_value(s.drop_last()) * 10 + ((s.last() as u32) - ('0' as u32)) as nat
    }
}

/// Trimming a trimmed text changes nothing: it starts and ends with no white space.
pub proof fn lemma_trimmed_is_trimmed(s: Seq<char>)
    ensures
        trimmed(trimmed(s)) == trimmed(s),
        trimmed(s).len() > 0 ==> !white_space(trimmed(s)[0]) && !white_space(trimmed(s).last()),
{
    let u = trim_start(s);
    let t = trim_end(u);
    lemma_trim_start_shape(s);
    lemma_trim_end_shape(u);
    if t.len() > 0 {
        assert(t[0] == u[0]);
        assert(!white_space(t[0]));
        assert(trim_start(t) == t);
        assert(trim_end(t) == t);
    } else {
        assert(trim_start(t) == t);
        assert(trim_end(t) == t);
    }
}

/// Every text that `trimmed_nonempty` keeps is trimmed and not empty.
pub proof fn lemma_trimmed_nonempty_items(v: Seq<Seq<char>>)
    ensures
        trimmed_nonempty(v).len() <= v.len(),
        forall|i: int|
            0 <= i < trimmed_nonempty(v).len() ==> (#[trigger] trimmed_nonempty(v)[i]).len() > 0
                && trimmed(trimmed_nonempty(v)[i]) == trimmed_nonempty(v)[i],
    decreases v.len(),
{
    if v.len() > 0 {
        lemma_trimmed_nonempty_items(v.drop_last());
        lemma_trimmed_is_trimmed(v.last());
        let r = trimmed_nonempty(v.drop_last());
        if trimmed(v.last()).len() > 0 {
            assert forall|i: int| 0 <= i < r.len() + 1 implies (#[trigger] r.push(trimmed(v.last()))[i]).len() > 0
                && trimmed(r.push(trimmed(v.last()))[i]) == r.push(trimmed(v.last()))[i] by {
                if i < r.len() {
                    assert(r.push(trimmed(v.last()))[i] == r[i]);
                }
            }
        }
    }
}

} // verus!

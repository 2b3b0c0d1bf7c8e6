use vstd::prelude::*;

verus! {

/// The characters of a string slice, in order.
pub fn chars_of(s: &str) -> (r: Vec<char>)
    ensures
        r@ == s@,
{
    let mut r: Vec<char> = Vec::new();
    for c in it: s.chars()
        invariant
            r@ == it.seq().take(it.index() as int),
            it.seq() == s@,
    {
        r.push(c);
    }
    r
}

/// Unicode `White_Space`, the property that `char::is_whitespace`, `str::trim`
/// and `str::split_whitespace` go by.
pub open spec fn is_ws(c: char) -> bool {
    let u = c as u32;
    ||| 0x09 <= u <= 0x0d
    ||| u == 0x20
    ||| u == 0x85
    ||| u == 0xa0
    ||| u == 0x1680
    ||| 0x2000 <= u <= 0x200a
    ||| u == 0x2028
    ||| u == 0x2029
    ||| u == 0x202f
    ||| u == 0x205f
    ||| u == 0x3000
}

/// Among ASCII characters, the whitespace is space, tab, line feed,
/// vertical tab, form feed and carriage return; the no-break space and
/// the ideographic space are whitespace too.
pub proof fn lemma_whitespace_chars(c: char)
    ensures
        (c as u32) < 128 ==> (is_ws(c) <==> (c == ' ' || c == '\t' || c == '\n' || c == '\r' || (c as u32)
            == 11 || (c as u32) == 12)),
        is_ws('\u{a0}'),
        is_ws('\u{3000}'),
        !is_ws('\u{200b}'),
{
}

pub fn is_whitespace(c: char) -> (r: bool)
    ensures
        r == is_ws(c),
{
    let u = c as u32;
    (0x09 <= u && u <= 0x0d) || u == 0x20 || u == 0x85 || u == 0xa0 || u == 0x1680 || (0x2000 <= u
        && u <= 0x200a) || u == 0x2028 || u == 0x2029 || u == 0x202f || u == 0x205f || u == 0x3000
}

/// What a trim removes: whitespace, or every copy of one character.
#[derive(Clone, Copy)]
pub enum TrimClass {
    Whitespace,
    Char(char),
}

pub open spec fn trimmed_char(c: char, cls: TrimClass) -> bool {
    match cls {
        TrimClass::Whitespace => is_ws(c),
        TrimClass::Char(d) => c == d,
    }
}

fn is_trimmed_char(c: char, cls: TrimClass) -> (r: bool)
    ensures
        r == trimmed_char(c, cls),
{
    match cls {
        TrimClass::Whitespace => is_whitespace(c),
        TrimClass::Char(d) => c == d,
    }
}

/// `s` without its leading run of trimmed characters.
pub open spec fn trim_start_of(s: Seq<char>, cls: TrimClass) -> Seq<char>
    decreases s.len(),
{
    if s.len() > 0 && trimmed_char(s[0], cls) {
        trim_start_of(s.drop_first(), cls)
    } else {
        s
    }
}

/// `s` without its trailing run of trimmed characters.
pub open spec fn trim_end_of(s: Seq<char>, cls: TrimClass) -> Seq<char>
    decreases s.len(),
{
    if s.len() > 0 && trimmed_char(s.last(), cls) {
        trim_end_of(s.drop_last(), cls)
    } else {
        s
    }
}

proof fn lemma_trim_start_skip(s: Seq<char>, cls: TrimClass)
    ensures
        trim_start_of(s, cls).len() <= s.len(),
        trim_start_of(s, cls) == s.skip(s.len() - trim_start_of(s, cls).len()),
        forall|i: int| 0 <= i < s.len() - trim_start_of(s, cls).len() ==> trimmed_char(#[trigger] s[i], cls),
        trim_start_of(s, cls).len() == 0 || !trimmed_char(trim_start_of(s, cls)[0], cls),
    decreases s.len(),
{
    if s.len() > 0 && trimmed_char(s[0], cls) {
        let t = s.drop_first();
        lemma_trim_start_skip(t, cls);
        let r = trim_start_of(s, cls);
        assert(t.skip(t.len() - r.len()) =~= s.skip(s.len() - r.len()));
        assert forall|i: int| 0 <= i < s.len() - r.len() implies trimmed_char(#[trigger] s[i], cls) by {
            if i > 0 {
                assert(s[i] == t[i - 1]);
            }
        }
    } else {
        assert(s.skip(0) =~= s);
    }
}

proof fn lemma_trim_end_take(s: Seq<char>, cls: TrimClass)
    ensures
        trim_end_of(s, cls).len() <= s.len(),
        trim_end_of(s, cls) == s.take(trim_end_of(s, cls).len() as int),
        forall|i: int| trim_end_of(s, cls).len() <= i < s.len() ==> trimmed_char(#[trigger] s[i], cls),
        trim_end_of(s, cls).len() == 0 || !trimmed_char(trim_end_of(s, cls).last(), cls),
    decreases s.len(),
{
    if s.len() > 0 && trimmed_char(s.last(), cls) {
        let t = s.drop_last();
        lemma_trim_end_take(t, cls);
        let r = trim_end_of(s, cls);
        assert(t.take(r.len() as int) =~= s.take(r.len() as int));
        assert forall|i: int| r.len() <= i < s.len() implies trimmed_char(#[trigger] s[i], cls) by {
            if i < s.len() - 1 {
                assert(s[i] == t[i]);
            }
        }
    } else {
        assert(s.take(s.len() as int) =~= s);
    }
}

/// What `trim` leaves is the middle of the text, with only whitespace cut
/// off before and after it, and it neither starts nor ends with
/// whitespace.
pub proof fn lemma_trim_shape(s: Seq<char>)
    ensures
        exists|i: int|
            0 <= i && i + trim(s).len() <= s.len() && trim(s) == #[trigger] s.subrange(i, i + trim(s).len()) && (forall|j: int|
                0 <= j < i ==> is_ws(#[trigger] s[j])) && (forall|j: int|
                i + trim(s).len() <= j < s.len() ==> is_ws(#[trigger] s[j])),
        trim(s).len() > 0 ==> !is_ws(trim(s)[0]) && !is_ws(trim(s).last()),
{
    let ws = TrimClass::Whitespace;
    let a = trim_start_of(s, ws);
    let t = trim(s);
    lemma_trim_start_skip(s, ws);
    lemma_trim_end_take(a, ws);
    let i = s.len() - a.len();
    assert(t =~= s.subrange(i, i + t.len()));
    assert forall|j: int| i + t.len() <= j < s.len() implies is_ws(#[trigger] s[j]) by {
        assert(s[j] == a[j - i]);
        assert(trimmed_char(a[j - i], ws));
    }
    assert forall|j: int| 0 <= j < i implies is_ws(#[trigger] s[j]) by {
        assert(trimmed_char(s[j], ws));
    }
    if t.len() > 0 {
        assert(t[0] == a[0]);
    }
}

/// `str::trim`: leading and trailing whitespace removed.
pub open spec fn trim(s: Seq<char>) -> Seq<char> {
    trim_end_of(trim_start_of(s, TrimClass::Whitespace), TrimClass::Whitespace)
}

/// `str::trim_matches('"')`: leading and trailing double quotes removed.
pub open spec fn trim_quotes(s: Seq<char>) -> Seq<char> {
    trim_end_of(trim_start_of(s, TrimClass::Char('"')), TrimClass::Char('"'))
}

/// Index of the first whitespace character of `s`, or its length if it has none.
pub open spec fn first_ws_index(s: Seq<char>) -> nat
    decreases s.len(),
{
    if s.len() == 0 {
        0
    } else if is_ws(s[0]) {
        0
    } else {
        1 + first_ws_index(s.drop_first())
    }
}

pub proof fn lemma_first_ws_index_bounds(s: Seq<char>)
    ensures
        first_ws_index(s) <= s.len(),
        s.len() > 0 && !is_ws(s[0]) ==> first_ws_index(s) >= 1,
        forall|j: int| 0 <= j < first_ws_index(s) ==> !is_ws(#[trigger] s[j]),
        first_ws_index(s) < s.len() ==> is_ws(s[first_ws_index(s) as int]),
    decreases s.len(),
{
    if s.len() > 0 && !is_ws(s[0]) {
        lemma_first_ws_index_bounds(s.drop_first());
        assert forall|j: int| 0 <= j < first_ws_index(s) implies !is_ws(#[trigger] s[j]) by {
            if j > 0 {
                assert(s[j] == s.drop_first()[j - 1]);
            }
        }
    }
}

/// `str::split_whitespace`: the maximal runs of non-whitespace characters.
pub open spec fn words(s: Seq<char>) -> Seq<Seq<char>>
    decreases s.len(),
{
    if s.len() == 0 {
        seq![]
    } else if is_ws(s[0]) {
        words(s.drop_first())
    } else {
        let k = first_ws_index(s);
        proof {
            lemma_first_ws_index_bounds(s);
        }
        seq![s.take(k as int)] + words(s.skip(k as int))
    }
}

/// Index just past the leading trimmed characters of `cs[lo..hi]`.
pub fn trim_start_index(cs: &Vec<char>, lo: usize, hi: usize, cls: TrimClass) -> (a: usize)
    requires
        lo <= hi <= cs@.len(),
    ensures
        lo <= a <= hi,
        cs@.subrange(a as int, hi as int) == trim_start_of(cs@.subrange(lo as int, hi as int), cls),
{
    let mut i = lo;
    while i < hi && is_trimmed_char(cs[i], cls)
        invariant
            lo <= i <= hi <= cs@.len(),
            trim_start_of(cs@.subrange(i as int, hi as int), cls) == trim_start_of(
                cs@.subrange(lo as int, hi as int),
                cls,
            ),
        decreases hi - i,
    {
        proof {
            assert(cs@.subrange(i as int, hi as int).drop_first() =~= cs@.subrange(
                i + 1,
                hi as int,
            ));
        }
        i = i + 1;
    }
    i
}

/// Index just before the trailing trimmed characters of `cs[lo..hi]`.
pub fn trim_end_index(cs: &Vec<char>, lo: usize, hi: usize, cls: TrimClass) -> (b: usize)
    requires
        lo <= hi <= cs@.len(),
    ensures
        lo <= b <= hi,
        cs@.subrange(lo as int, b as int) == trim_end_of(cs@.subrange(lo as int, hi as int), cls),
{
    let mut j = hi;
    while j > lo && is_trimmed_char(cs[j - 1], cls)
        invariant
            lo <= j <= hi <= cs@.len(),
            trim_end_of(cs@.subrange(lo as int, j as int), cls) == trim_end_of(
                cs@.subrange(lo as int, hi as int),
                cls,
            ),
        decreases j - lo,
    {
        proof {
            assert(cs@.subrange(lo as int, j as int).drop_last() =~= cs@.subrange(
                lo as int,
                j - 1,
            ));
        }
        j = j - 1;
    }
    j
}

/// Index of the first whitespace character of `cs[lo..hi]`, or `hi`.
pub fn first_ws_position(cs: &Vec<char>, lo: usize, hi: usize) -> (k: usize)
    requires
        lo <= hi <= cs@.len(),
    ensures
        lo <= k <= hi,
        k - lo == first_ws_index(cs@.subrange(lo as int, hi as int)),
{
    let mut i = lo;
    while i < hi && !is_whitespace(cs[i])
        invariant
            lo <= i <= hi <= cs@.len(),
            first_ws_index(cs@.subrange(lo as int, hi as int)) == (i - lo) + first_ws_index(
                cs@.subrange(i as int, hi as int),
            ),
        decreases hi - i,
    {
        proof {
            assert(cs@.subrange(i as int, hi as int).drop_first() =~= cs@.subrange(
                i + 1,
                hi as int,
            ));
        }
        i = i + 1;
    }
    i
}

proof fn lemma_first_ws_concat(a: Seq<char>, y: Seq<char>)
    ensures
        first_ws_index(a + y) == if first_ws_index(a) < a.len() {
            first_ws_index(a)
        } else {
            a.len() + first_ws_index(y)
        },
    decreases a.len(),
{
    lemma_first_ws_index_bounds(a);
    if a.len() == 0 {
        assert(a + y =~= y);
    } else {
        assert((a + y)[0] == a[0]);
        if !is_ws(a[0]) {
            assert((a + y).drop_first() =~= a.drop_first() + y);
            lemma_first_ws_concat(a.drop_first(), y);
        }
    }
}

/// The words of a text are those of its two sides around any whitespace
/// character, and a nonempty text without whitespace is a single word.
pub proof fn lemma_words_split(a: Seq<char>, c: char, b: Seq<char>)
    requires
        is_ws(c),
    ensures
        words(a + seq![c] + b) == words(a) + words(b),
        (a.len() > 0 && forall|i: int| 0 <= i < a.len() ==> !is_ws(#[trigger] a[i])) ==> words(a) == seq![a],
    decreases a.len(),
{
    let s = a + seq![c] + b;
    lemma_first_ws_index_bounds(a);
    if a.len() == 0 {
        assert(s[0] == c);
        assert(s.drop_first() =~= b);
        assert(words(a) == Seq::<Seq<char>>::empty());
        assert(Seq::<Seq<char>>::empty() + words(b) =~= words(b));
    } else if is_ws(a[0]) {
        assert(s[0] == a[0]);
        assert(s.drop_first() =~= a.drop_first() + seq![c] + b);
        lemma_words_split(a.drop_first(), c, b);
    } else {
        assert(s[0] == a[0]);
        lemma_first_ws_concat(a, seq![c] + b);
        assert(s =~= a + (seq![c] + b));
        assert((seq![c] + b)[0] == c);
        let k = first_ws_index(a) as int;
        assert(first_ws_index(s) == k);
        assert(s.take(k) =~= a.take(k));
        assert(s.skip(k) =~= a.skip(k) + seq![c] + b);
        lemma_words_split(a.skip(k), c, b);
        assert(seq![a.take(k)] + (words(a.skip(k)) + words(b)) =~= (seq![a.take(k)] + words(a.skip(k)))
            + words(b));
    }
    if a.len() > 0 && forall|i: int| 0 <= i < a.len() ==> !is_ws(#[trigger] a[i]) {
        if first_ws_index(a) < a.len() {
            assert(is_ws(a[first_ws_index(a) as int]));
        }
        assert(a.take(a.len() as int) =~= a);
        assert(a.skip(a.len() as int) =~= Seq::<char>::empty());
        assert(words(Seq::<char>::empty()) == Seq::<Seq<char>>::empty());
        assert(seq![a] + Seq::<Seq<char>>::empty() =~= seq![a]);
    }
}

/// `s[from..to]` as an owned string.
pub fn substring(s: &str, from: usize, to: usize) -> (r: String)
    requires
        from <= to <= s@.len(),
    ensures
        r@ == s@.subrange(from as int, to as int),
{
    s.substring_char(from, to).to_owned()
}

/// The whitespace-separated words of `s[lo..hi]`, where `cs` holds the characters of `s`.
pub fn words_in(s: &str, cs: &Vec<char>, lo: usize, hi: usize) -> (r: Vec<String>)
    requires
        cs@ == s@,
        lo <= hi <= cs@.len(),
    ensures
        r@.map_values(|w: String| w@) == words(cs@.subrange(lo as int, hi as int)),
{
    let mut r: Vec<String> = Vec::new();
    let mut i = lo;
    while i < hi
        invariant
            cs@ == s@,
            lo <= i <= hi <= cs@.len(),
            r@.map_values(|w: String| w@) + words(cs@.subrange(i as int, hi as int)) == words(
                cs@.subrange(lo as int, hi as int),
            ),
        decreases hi - i,
    {
        let ghost rest = cs@.subrange(i as int, hi as int);
        if is_whitespace(cs[i]) {
            proof {
                assert(rest.drop_first() =~= cs@.subrange(i + 1, hi as int));
            }
            i = i + 1;
        } else {
            let k = first_ws_position(cs, i, hi);
            proof {
                lemma_first_ws_index_bounds(rest);
                assert(rest.take((k - i) as int) =~= cs@.subrange(i as int, k as int));
                assert(rest.skip((k - i) as int) =~= cs@.subrange(k as int, hi as int));
            }
            let w = substring(s, i, k);
            let ghost before = r@.map_values(|w: String| w@);
            r.push(w);
            proof {
                assert(r@.map_values(|w: String| w@) =~= before.push(w@));
                assert(before.push(w@) + words(cs@.subrange(k as int, hi as int)) =~= before + (
                seq![w@] + words(cs@.subrange(k as int, hi as int))));
            }
            i = k;
        }
    }
    proof {
        assert(cs@.subrange(i as int, hi as int) =~= Seq::<char>::empty());
        assert(r@.map_values(|w: String| w@) + Seq::<Seq<char>>::empty() =~= r@.map_values(
            |w: String| w@,
        ));
    }
    r
}


/// Calls `String::push`, which appends one character.
#[verifier::external_body]
pub fn push_char(s: &mut String, c: char)
    ensures
        final(s)@ == old(s)@.push(c),
{
    s.push(c);
}

/// `s` with its leading and trailing whitespace removed, as an owned string.
pub fn trim_str(s: &str) -> (r: String)
    ensures
        r@ == trim(s@),
{
    let cs = chars_of(s);
    let a = trim_start_index(&cs, 0, cs.len(), TrimClass::Whitespace);
    let b = trim_end_index(&cs, a, cs.len(), TrimClass::Whitespace);
    proof {
        assert(cs@.subrange(0, cs@.len() as int) =~= cs@);
    }
    substring(s, a, b)
}

/// The decimal digits of `n`, most significant first, without leading zeros.
pub open spec fn decimal(n: nat) -> Seq<char>
    decreases n,
{
    if n < 10 {
        seq![digit_char(n)]
    } else {
        decimal(n / 10).push(digit_char(n % 10))
    }
}

pub open spec fn digit_char(d: nat) -> char {
    (d + 48) as char
}

/// The decimal representation of `n`, as `to_string` writes it.
pub fn decimal_string(n: u64) -> (r: String)
    ensures
        r@ == decimal(n as nat),
{
    // digits, least significant first
    let mut ds: Vec<char> = Vec::new();
    let mut m = n;
    proof {
        assert(ds@.reverse() =~= Seq::<char>::empty());
        assert(decimal(n as nat) =~= decimal(n as nat) + ds@.reverse());
    }
    loop
        invariant_except_break
            decimal(n as nat) == decimal(m as nat) + ds@.reverse(),
        invariant
            m <= n,
        ensures
            decimal(n as nat) == ds@.reverse(),
        decreases m,
    {
        let d = m % 10;
        let c = ((d as u8) + 48) as char;
        proof {
            assert(c == digit_char(d as nat));
            if m >= 10 {
                assert(decimal(m as nat) == decimal((m / 10) as nat).push(c));
            assert(decimal((m / 10) as nat) + ds@.push(c).reverse() == decimal(n as nat));
                assert(ds@.push(c).reverse() =~= seq![c] + ds@.reverse());
                assert(decimal((m / 10) as nat).push(c) + ds@.reverse() =~= decimal((m / 10) as nat) + (seq![c] + ds@.reverse()));
            } else {
                assert(decimal(m as nat) == seq![c]);
                assert(ds@.push(c).reverse() =~= seq![c] + ds@.reverse());
            }
        }
        ds.push(c);
        if m < 10 {
            proof {
                assert(decimal(n as nat) == ds@.reverse());
            }
            break;
        }
        m = m / 10;
    }
    let mut r = String::new();
    let mut i = ds.len();
    proof {
        assert(ds@.subrange(i as int, ds@.len() as int).reverse() =~= Seq::<char>::empty());
    }
    while i > 0
        invariant
            i <= ds@.len(),
            r@ == ds@.subrange(i as int, ds@.len() as int).reverse(),
        decreases i,
    {
        i = i - 1;
        push_char(&mut r, ds[i]);
        proof {
            assert(ds@.subrange(i as int, ds@.len() as int).reverse() =~= ds@.subrange(
                i + 1,
                ds@.len() as int,
            ).reverse().push(ds@[i as int]));
        }
    }
    proof {
        assert(ds@.subrange(0, ds@.len() as int) =~= ds@);
    }
    r
}

} // verus!

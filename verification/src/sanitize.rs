//! Title sanitization: maps arbitrary user text to an identifier that
//! is safe as a single path segment.
//!
//! Alphanumeric characters are kept; every other character becomes the
//! placeholder, a space, so that runs of rejected characters at either
//! end disappear with the trim.  Interior spaces stay.  A title that
//! cleans to nothing but spaces is rejected rather than producing an
//! empty file name.

use vstd::prelude::*;

verus! {

/// An ASCII letter or digit.
pub open spec fn is_alnum_char(c: char) -> bool {
    let u = c as u32;
    (48 <= u && u <= 57) || (65 <= u && u <= 90) || (97 <= u && u <= 122)
}

/// A character that may appear in a sanitized title: alphanumeric or an
/// interior space.
pub open spec fn is_title_char(c: char) -> bool {
    is_alnum_char(c) || c == ' '
}

/// One cleaned character: alphanumeric characters are kept, everything
/// else becomes the placeholder.
pub open spec fn clean_char(c: char) -> char {
    if is_alnum_char(c) {
        c
    } else {
        ' '
    }
}

/// The raw title with every disallowed character replaced.
pub open spec fn cleaned(raw: Seq<char>) -> Seq<char> {
    raw.map_values(|c: char| clean_char(c))
}

/// The sequence without its leading spaces.
pub open spec fn trim_front(s: Seq<char>) -> Seq<char>
    decreases s.len(),
{
    if s.len() > 0 && s[0] == ' ' {
        trim_front(s.drop_first())
    } else {
        s
    }
}

/// The sequence without its trailing spaces.
pub open spec fn trim_back(s: Seq<char>) -> Seq<char>
    decreases s.len(),
{
    if s.len() > 0 && s.last() == ' ' {
        trim_back(s.drop_last())
    } else {
        s
    }
}

/// The sanitized form of a raw title: cleaned, trimmed at both ends,
/// and rejected when nothing remains.
pub open spec fn spec_sanitize(raw: Seq<char>) -> Option<Seq<char>> {
    let t = trim_back(trim_front(cleaned(raw)));
    if t.len() == 0 {
        None
    } else {
        Some(t)
    }
}

/// A sanitized title: non-empty, every character allowed, no space at
/// either end.
pub struct SanitizedTitle {
    chars: Vec<char>,
}

impl View for SanitizedTitle {
    type V = Seq<char>;

    closed spec fn view(&self) -> Seq<char> {
        self.chars@
    }
}

impl SanitizedTitle {
    /// What every sanitized title satisfies.
    pub open spec fn wf(&self) -> bool {
        &&& self@.len() > 0
        &&& forall|i: int| 0 <= i < self@.len() ==> is_title_char(#[trigger] self@[i])
        &&& self@[0] != ' '
        &&& self@.last() != ' '
    }

    /// The identifier as a string.
    pub fn to_text(&self) -> (r: String)
        ensures
            r@ == self@,
    {
        crate::strutil::chars_to_string(&self.chars)
    }

    /// The characters of the identifier, owned.
    pub fn into_chars(self) -> (r: Vec<char>)
        ensures
            r@ == self@,
    {
        self.chars
    }
}

fn is_alnum(c: char) -> (r: bool)
    ensures
        r == is_alnum_char(c),
{
    let u = c as u32;
    (48 <= u && u <= 57) || (65 <= u && u <= 90) || (97 <= u && u <= 122)
}

/// Dropping leading spaces is the same as skipping up to the first
/// non-space position.
proof fn lemma_trim_front_skip(s: Seq<char>, k: int)
    requires
        0 <= k <= s.len(),
        forall|j: int| 0 <= j < k ==> s[j] == ' ',
        k == s.len() || s[k] != ' ',
    ensures
        trim_front(s) == s.skip(k),
    decreases k,
{
    if k == 0 {
        assert(s.skip(0) =~= s);
    } else {
        lemma_trim_front_skip(s.drop_first(), k - 1);
        assert(s.drop_first().skip(k - 1) =~= s.skip(k));
    }
}

/// Dropping trailing spaces is the same as taking up to the last
/// non-space position.
proof fn lemma_trim_back_take(s: Seq<char>, m: int)
    requires
        0 <= m <= s.len(),
        forall|j: int| m <= j < s.len() ==> s[j] == ' ',
        m == 0 || s[m - 1] != ' ',
    ensures
        trim_back(s) == s.take(m),
    decreases s.len() - m,
{
    if m == s.len() {
        assert(s.take(m) =~= s);
    } else {
        lemma_trim_back_take(s.drop_last(), m);
        assert(s.drop_last().take(m) =~= s.take(m));
    }
}

/// Converts arbitrary user text into a safe path-segment identifier;
/// `None` exactly when nothing but placeholders would remain.
pub fn sanitize(raw: &str) -> (r: Option<SanitizedTitle>)
    ensures
        match r {
            Some(t) => spec_sanitize(raw@) == Some(t@) && t.wf(),
            None => spec_sanitize(raw@) is None,
        },
{
    let cs = crate::strutil::str_to_chars(raw);
    let n = cs.len();
    let mut cl: Vec<char> = Vec::new();
    let mut i: usize = 0;
    while i < n
        invariant
            n == cs@.len(),
            cs@ == raw@,
            i <= n,
            cl@.len() == i,
            forall|j: int| 0 <= j < i ==> cl@[j] == clean_char(cs@[j]),
        decreases n - i,
    {
        let c = cs[i];
        if is_alnum(c) {
            cl.push(c);
        } else {
            cl.push(' ');
        }
        i = i + 1;
    }
    proof {
        assert(cl@ =~= cleaned(raw@));
    }
    let mut a: usize = 0;
    while a < n && cl[a] == ' '
        invariant
            n == cl@.len(),
            a <= n,
            forall|j: int| 0 <= j < a ==> cl@[j] == ' ',
        decreases n - a,
    {
        a = a + 1;
    }
    if a == n {
        proof {
            lemma_trim_front_skip(cl@, n as int);
            assert(cl@.skip(n as int).len() == 0);
        }
        return None;
    }
    proof {
        lemma_trim_front_skip(cl@, a as int);
    }
    let mut b: usize = n;
    while b > a && cl[b - 1] == ' '
        invariant
            n == cl@.len(),
            a <= b <= n,
            a < n,
            cl@[a as int] != ' ',
            forall|j: int| b <= j < n ==> cl@[j] == ' ',
        decreases b,
    {
        b = b - 1;
    }
    proof {
        let tail = cl@.skip(a as int);
        lemma_trim_back_take(tail, b - a);
        assert(tail.take(b - a) =~= cl@.subrange(a as int, b as int));
    }
    let mut out: Vec<char> = Vec::new();
    let mut i2: usize = a;
    while i2 < b
        invariant
            a <= i2 <= b <= n,
            n == cl@.len(),
            out@ == cl@.subrange(a as int, i2 as int),
        decreases b - i2,
    {
        out.push(cl[i2]);
        proof {
            assert(out@ =~= cl@.subrange(a as int, i2 as int + 1));
        }
        i2 = i2 + 1;
    }
    let t = SanitizedTitle { chars: out };
    proof {
        assert(t@ =~= cl@.subrange(a as int, b as int));
        assert(t@[0] == cl@[a as int]);
        assert(t@.last() == cl@[b - 1]);
        assert forall|i3: int| 0 <= i3 < t@.len() implies is_title_char(#[trigger] t@[i3]) by {
            assert(t@[i3] == cl@[a + i3]);
            assert(cl@[a + i3] == clean_char(raw@[a + i3]));
        }
    }
    Some(t)
}

/// A title with at least one alphanumeric character sanitizes
/// successfully: the result is non-empty and holds no character outside
/// the allowed set.
pub proof fn lemma_sanitize_keeps_alnum(raw: Seq<char>)
    requires
        exists|i: int| 0 <= i < raw.len() && is_alnum_char(#[trigger] raw[i]),
    ensures
        spec_sanitize(raw) is Some,
        spec_sanitize(raw)->Some_0.len() > 0,
        forall|j: int|
            0 <= j < spec_sanitize(raw)->Some_0.len() ==> is_title_char(
                #[trigger] spec_sanitize(raw)->Some_0[j],
            ),
{
    let i = choose|i: int| 0 <= i < raw.len() && is_alnum_char(#[trigger] raw[i]);
    let cl = cleaned(raw);
    assert(cl[i] == raw[i] && cl[i] != ' ');
    lemma_trim_front_keeps(cl, i);
    let f = trim_front(cl);
    let j = choose|j: int| 0 <= j < f.len() && f[j] != ' ';
    lemma_trim_back_keeps(f, j);
    lemma_trim_front_is_suffix(cl);
    let k = choose|k: int| 0 <= k <= cl.len() && trim_front(cl) == cl.skip(k);
    lemma_trim_back_is_prefix(f);
    let m = choose|m: int| 0 <= m <= f.len() && trim_back(f) == f.take(m);
    assert forall|j2: int| 0 <= j2 < trim_back(f).len() implies is_title_char(
        #[trigger] trim_back(f)[j2],
    ) by {
        assert(trim_back(f)[j2] == cl[j2 + k]);
        assert(cl[j2 + k] == clean_char(raw[j2 + k]));
    }
}

/// A title with no alphanumeric character at all sanitizes to nothing.
pub proof fn lemma_sanitize_all_symbolic(raw: Seq<char>)
    requires
        forall|i: int| 0 <= i < raw.len() ==> !is_alnum_char(#[trigger] raw[i]),
    ensures
        spec_sanitize(raw) is None,
{
    let cl = cleaned(raw);
    lemma_trim_front_skip(cl, cl.len() as int);
    assert(cl.skip(cl.len() as int).len() == 0);
}

/// Leading-space removal keeps every non-space character.
proof fn lemma_trim_front_keeps(s: Seq<char>, i: int)
    requires
        0 <= i < s.len(),
        s[i] != ' ',
    ensures
        exists|j: int| 0 <= j < trim_front(s).len() && #[trigger] trim_front(s)[j] != ' ',
    decreases s.len(),
{
    if s[0] == ' ' {
        lemma_trim_front_keeps(s.drop_first(), i - 1);
        let f = trim_front(s.drop_first());
        let j = choose|j: int| 0 <= j < f.len() && #[trigger] f[j] != ' ';
        assert(trim_front(s)[j] != ' ');
    } else {
        assert(trim_front(s)[i] != ' ');
    }
}

/// Trailing-space removal keeps a non-space character, so the result is
/// non-empty.
proof fn lemma_trim_back_keeps(s: Seq<char>, i: int)
    requires
        0 <= i < s.len(),
        s[i] != ' ',
    ensures
        trim_back(s).len() > 0,
    decreases s.len(),
{
    if s.last() == ' ' {
        lemma_trim_back_keeps(s.drop_last(), i);
    }
}

/// What the front trim leaves is a suffix.
proof fn lemma_trim_front_is_suffix(s: Seq<char>)
    ensures
        exists|k: int| 0 <= k <= s.len() && trim_front(s) == s.skip(k),
    decreases s.len(),
{
    if s.len() > 0 && s[0] == ' ' {
        lemma_trim_front_is_suffix(s.drop_first());
        let k = choose|k: int|
            0 <= k <= s.drop_first().len() && trim_front(s.drop_first()) == s.drop_first().skip(k);
        assert(s.drop_first().skip(k) =~= s.skip(k + 1));
        assert(trim_front(s) == s.skip(k + 1));
    } else {
        assert(s.skip(0) =~= s);
        assert(trim_front(s) == s.skip(0));
    }
}

/// What the back trim leaves is a prefix.
proof fn lemma_trim_back_is_prefix(s: Seq<char>)
    ensures
        exists|m: int| 0 <= m <= s.len() && trim_back(s) == s.take(m),
    decreases s.len(),
{
    if s.len() > 0 && s.last() == ' ' {
        lemma_trim_back_is_prefix(s.drop_last());
        let m = choose|m: int|
            0 <= m <= s.drop_last().len() && trim_back(s.drop_last()) == s.drop_last().take(m);
        assert(s.drop_last().take(m) =~= s.take(m));
        assert(trim_back(s) == s.take(m));
    } else {
        assert(s.take(s.len() as int) =~= s);
        assert(trim_back(s) == s.take(s.len() as int));
    }
}

} // verus!

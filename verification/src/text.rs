use vstd::prelude::*;
use vstd::string::StringExecFns;

verus! {

broadcast use vstd::string::group_string_axioms;

/// What `str::to_uppercase` makes of a sequence of characters: the Unicode
/// uppercase mapping, which may change the length (`'ß'` becomes `"SS"`).
pub uninterp spec fn uppercase_of(s: Seq<char>) -> Seq<char>;

/// Whether `c` is an ASCII lowercase letter.
pub open spec fn is_ascii_lowercase(c: char) -> bool {
    'a' <= c && c <= 'z'
}

/// The ASCII uppercase of a character: `a` to `z` become `A` to `Z`, every
/// other character stays as it is.
pub open spec fn ascii_upper(c: char) -> char {
    if is_ascii_lowercase(c) {
        ((c as int) - 32) as char
    } else {
        c
    }
}

/// Calls `str::to_uppercase`. Its result is named by [`uppercase_of`]; of it
/// is claimed what the Unicode uppercase mapping gives: no ASCII lowercase
/// letter is left, and a string of ASCII characters is uppercased character
/// by character, `a` to `z` becoming `A` to `Z`.
#[verifier::external_body]
pub(crate) fn to_uppercase(s: &str) -> (r: String)
    ensures
        r@ == uppercase_of(s@),
        forall|i: int| 0 <= i < r@.len() ==> !is_ascii_lowercase(#[trigger] r@[i]),
        (forall|i: int| 0 <= i < s@.len() ==> (#[trigger] s@[i] as u32) < 128) ==> r@ == s@.map_values(
            |c: char| ascii_upper(c),
        ),
{
    s.to_uppercase()
}

/// Calls `String::push`, which appends one character to the end.
#[verifier::external_body]
pub(crate) fn push_char(s: &mut String, c: char)
    ensures
        final(s)@ == old(s)@.push(c),
{
    s.push(c)
}

/// The characters of a string, in order.
pub fn chars_of(s: &str) -> (v: Vec<char>)
    ensures
        v@ == s@,
{
    let mut v: Vec<char> = Vec::new();
    for c in it: s.chars()
        invariant
            v@ == it.seq().take(it.index() as int),
    {
        v.push(c);
    }
    v
}

/// The string made of the characters `chars[from..to]`.
pub fn string_from(chars: &[char], from: usize, to: usize) -> (s: String)
    requires
        from <= to <= chars@.len(),
    ensures
        s@ == chars@.subrange(from as int, to as int),
{
    let mut s = String::new();
    let mut i = from;
    while i < to
        invariant
            from <= i <= to <= chars@.len(),
            s@ == chars@.subrange(from as int, i as int),
        decreases to - i,
    {
        push_char(&mut s, chars[i]);
        proof {
            assert(chars@.subrange(from as int, i + 1) =~= chars@.subrange(from as int, i as int).push(chars@[i as int]));
        }
        i = i + 1;
    }
    s
}

/// ASCII letters and digits.
pub open spec fn is_ascii_alphanumeric(c: char) -> bool {
    ('A' <= c && c <= 'Z') || ('a' <= c && c <= 'z') || ('0' <= c && c <= '9')
}

/// The characters that a volume label keeps.
pub open spec fn is_label_char(c: char) -> bool {
    is_ascii_alphanumeric(c) || c == ' ' || c == '_'
}

pub fn label_char(c: char) -> (b: bool)
    ensures
        b == is_label_char(c),
{
    ('A' <= c && c <= 'Z') || ('a' <= c && c <= 'z') || ('0' <= c && c <= '9') || c == ' ' || c == '_'
}

/// The digit character of a value below ten.
pub open spec fn digit_char(d: nat) -> char {
    (48 + d) as char
}

/// The decimal representation of a natural number, without leading zeros.
pub open spec fn decimal(n: nat) -> Seq<char>
    decreases n,
{
    if n < 10 {
        seq![digit_char(n)]
    } else {
        decimal(n / 10).push(digit_char(n % 10))
    }
}

/// Writes `n` in decimal.
pub fn decimal_string(n: usize) -> (s: String)
    ensures
        s@ == decimal(n as nat),
    decreases n,
{
    if n < 10 {
        let mut s = String::new();
        push_char(&mut s, ((48 + n) as u8) as char);
        s
    } else {
        let mut s = decimal_string(n / 10);
        push_char(&mut s, ((48 + n % 10) as u8) as char);
        s
    }
}

/// Every backslash turned into a forward slash.
pub open spec fn forward_slashes(s: Seq<char>) -> Seq<char> {
    s.map_values(|c: char| if c == '\\' { '/' } else { c })
}

/// Replaces every backslash of `s` with a forward slash.
pub fn replace_backslashes(s: &str) -> (r: String)
    ensures
        r@ == forward_slashes(s@),
{
    let chars = chars_of(s);
    let mut r = String::new();
    let mut i: usize = 0;
    while i < chars.len()
        invariant
            i <= chars@.len(),
            chars@ == s@,
            r@ == forward_slashes(chars@.take(i as int)),
        decreases chars@.len() - i,
    {
        let c = chars[i];
        if c == '\\' {
            push_char(&mut r, '/');
        } else {
            push_char(&mut r, c);
        }
        proof {
            assert(forward_slashes(chars@.take(i + 1)) =~= forward_slashes(chars@.take(i as int)).push(
                if c == '\\' { '/' } else { c },
            ));
        }
        i = i + 1;
    }
    proof { assert(chars@.take(i as int) =~= chars@); }
    r
}

/// Concatenates two strings.
pub fn concat(a: &str, b: &str) -> (r: String)
    ensures
        r@ == a@ + b@,
{
    let mut r = String::from_str(a);
    r.append(b);
    r
}

/// The path with its leading slashes removed.
pub open spec fn strip_leading_slashes(s: Seq<char>) -> Seq<char>
    decreases s.len(),
{
    if s.len() > 0 && s[0] == '/' {
        strip_leading_slashes(s.drop_first())
    } else {
        s
    }
}

/// The index of the last slash of `s`, or -1 when there is none.
pub open spec fn last_slash(s: Seq<char>) -> int
    decreases s.len(),
{
    if s.len() == 0 {
        -1
    } else if s.last() == '/' {
        s.len() - 1
    } else {
        last_slash(s.drop_last())
    }
}

/// The directory part of a path inside the image: with the leading slashes
/// removed, everything before the last slash; `None` when no slash is left.
pub open spec fn directory_of(iso_path: Seq<char>) -> Option<Seq<char>> {
    let p = strip_leading_slashes(iso_path);
    let k = last_slash(p);
    if k >= 0 {
        Some(p.take(k))
    } else {
        None
    }
}

proof fn lemma_strip_skip(s: Seq<char>, k: int)
    requires
        0 <= k < s.len(),
        s[k] == '/',
    ensures
        strip_leading_slashes(s.skip(k)) == strip_leading_slashes(s.skip(k + 1)),
{
    assert(s.skip(k).drop_first() =~= s.skip(k + 1));
}

/// Computes [`directory_of`].
pub fn directory_part(iso_path: &str) -> (r: Option<Vec<char>>)
    ensures
        match r {
            Some(d) => directory_of(iso_path@) == Some(d@),
            None => directory_of(iso_path@) is None,
        },
{
    let chars = chars_of(iso_path);
    let n = chars.len();
    let mut k: usize = 0;
    proof { assert(chars@.skip(0) =~= chars@); }
    while k < n && chars[k] == '/'
        invariant
            k <= n == chars@.len(),
            chars@ == iso_path@,
            strip_leading_slashes(iso_path@) == strip_leading_slashes(chars@.skip(k as int)),
        decreases n - k,
    {
        proof { lemma_strip_skip(chars@, k as int); }
        k = k + 1;
    }
    let ghost p = chars@.skip(k as int);
    assert(strip_leading_slashes(p) == p);
    let mut idx: usize = n;
    proof { assert(p.take(n - k) =~= p); }
    while idx > k && chars[idx - 1] != '/'
        invariant
            k <= idx <= n == chars@.len(),
            p == chars@.skip(k as int),
            last_slash(p) == last_slash(p.take(idx - k)),
        decreases idx,
    {
        proof {
            assert(p.take(idx - k).drop_last() =~= p.take(idx - 1 - k));
            assert(p.take(idx - k).last() == chars@[idx - 1]);
        }
        idx = idx - 1;
    }
    if idx == k {
        proof { assert(p.take(0) =~= Seq::<char>::empty()); }
        None
    } else {
        proof {
            assert(p.take(idx - k).last() == chars@[idx - 1]);
        }
        let mut d: Vec<char> = Vec::new();
        let mut i = k;
        while i < idx - 1
            invariant
                k <= i <= idx - 1,
                idx <= n == chars@.len(),
                d@ == chars@.subrange(k as int, i as int),
            decreases idx - 1 - i,
        {
            d.push(chars[i]);
            proof {
                assert(chars@.subrange(k as int, i + 1) =~= chars@.subrange(k as int, i as int).push(chars@[i as int]));
            }
            i = i + 1;
        }
        proof { assert(d@ =~= p.take(idx - 1 - k)); }
        Some(d)
    }
}

/// The components of a path separated by slashes, as `str::split('/')`
/// gives them: `"a/b"` has two, `""` has one empty component, and a
/// trailing slash gives a trailing empty component.
pub open spec fn split_slash(s: Seq<char>) -> Seq<Seq<char>>
    decreases s.len(),
{
    if s.len() == 0 {
        seq![seq![]]
    } else {
        let prev = split_slash(s.drop_last());
        if s.last() == '/' {
            prev.push(seq![])
        } else {
            prev.update(prev.len() - 1, prev.last().push(s.last()))
        }
    }
}

proof fn lemma_split_slash_len(s: Seq<char>)
    ensures
        split_slash(s).len() >= 1,
    decreases s.len(),
{
    if s.len() > 0 {
        lemma_split_slash_len(s.drop_last());
    }
}

/// Splits `s` at every slash.
pub fn split_components(s: &Vec<char>) -> (parts: Vec<String>)
    ensures
        parts@.map_values(|p: String| p@) == split_slash(s@),
{
    let mut parts: Vec<String> = Vec::new();
    let mut start: usize = 0;
    let mut i: usize = 0;
    proof {
        assert(s@.take(0) =~= Seq::<char>::empty());
        assert(parts@.map_values(|p: String| p@).push(s@.subrange(0, 0)) =~= seq![Seq::<char>::empty()]);
    }
    while i < s.len()
        invariant
            start <= i <= s@.len(),
            parts@.map_values(|p: String| p@).push(s@.subrange(start as int, i as int)) == split_slash(s@.take(i as int)),
        decreases s@.len() - i,
    {
        let ghost prev = split_slash(s@.take(i as int));
        proof {
            lemma_split_slash_len(s@.take(i as int));
            assert(s@.take(i + 1).drop_last() =~= s@.take(i as int));
            assert(s@.take(i + 1).last() == s@[i as int]);
        }
        if s[i] == '/' {
            let piece = string_from(s.as_slice(), start, i);
            let ghost before_parts = parts@;
            parts.push(piece);
            proof {
                assert(parts@.map_values(|p: String| p@) =~= before_parts.map_values(|p: String| p@).push(piece@));
            }
            start = i + 1;
            proof {
                assert(s@.subrange(start as int, i + 1) =~= Seq::<char>::empty());
                assert(parts@.map_values(|p: String| p@).push(s@.subrange(start as int, i + 1))
                    =~= prev.push(seq![]));
            }
        } else {
            proof {
                assert(s@.subrange(start as int, i + 1) =~= s@.subrange(start as int, i as int).push(s@[i as int]));
                assert(parts@.map_values(|p: String| p@).push(s@.subrange(start as int, i + 1))
                    =~= prev.update(prev.len() - 1, prev.last().push(s@[i as int])));
            }
        }
        i = i + 1;
    }
    let last = string_from(s.as_slice(), start, i);
    let ghost before_parts = parts@;
    parts.push(last);
    proof {
        assert(parts@.map_values(|p: String| p@) =~= before_parts.map_values(|p: String| p@).push(last@));
        assert(s@.take(i as int) =~= s@);
        assert(parts@.map_values(|p: String| p@) =~= split_slash(s@));
    }
    parts
}

/// The order of strings by their characters' code points, shorter first
/// where one is a prefix of the other. It is the order of `String`, since
/// UTF-8 keeps the order of code points.
pub open spec fn chars_less(a: Seq<char>, b: Seq<char>) -> bool
    decreases a.len(),
{
    if a.len() == 0 {
        b.len() > 0
    } else if b.len() == 0 {
        false
    } else if a[0] != b[0] {
        (a[0] as int) < (b[0] as int)
    } else {
        chars_less(a.drop_first(), b.drop_first())
    }
}

proof fn lemma_chars_less_skip(a: Seq<char>, b: Seq<char>, i: int)
    requires
        0 <= i <= a.len(),
        i <= b.len(),
        a.take(i) == b.take(i),
    ensures
        chars_less(a, b) == chars_less(a.skip(i), b.skip(i)),
    decreases i,
{
    if i > 0 {
        assert(a[0] == a.take(i)[0]);
        assert(b[0] == b.take(i)[0]);
        assert(a.drop_first().take(i - 1) =~= a.take(i).drop_first());
        assert(b.drop_first().take(i - 1) =~= b.take(i).drop_first());
        lemma_chars_less_skip(a.drop_first(), b.drop_first(), i - 1);
        assert(a.drop_first().skip(i - 1) =~= a.skip(i));
        assert(b.drop_first().skip(i - 1) =~= b.skip(i));
    } else {
        assert(a.skip(0) =~= a);
        assert(b.skip(0) =~= b);
    }
}

/// Whether `a` comes before `b` in [`chars_less`].
pub fn chars_before(a: &Vec<char>, b: &Vec<char>) -> (r: bool)
    ensures
        r == chars_less(a@, b@),
{
    let mut i: usize = 0;
    while i < a.len() && i < b.len() && a[i] == b[i]
        invariant
            i <= a@.len(),
            i <= b@.len(),
            a@.take(i as int) == b@.take(i as int),
        decreases a@.len() - i,
    {
        proof {
            assert(a@.take(i + 1) =~= a@.take(i as int).push(a@[i as int]));
            assert(b@.take(i + 1) =~= b@.take(i as int).push(b@[i as int]));
        }
        i = i + 1;
    }
    proof { lemma_chars_less_skip(a@, b@, i as int); }
    if i == a.len() {
        i < b.len()
    } else if i == b.len() {
        false
    } else {
        proof {
            assert(a@.skip(i as int)[0] == a@[i as int]);
            assert(b@.skip(i as int)[0] == b@[i as int]);
        }
        a[i] < b[i]
    }
}

pub proof fn lemma_chars_less_irreflexive(a: Seq<char>)
    ensures
        !chars_less(a, a),
    decreases a.len(),
{
    if a.len() > 0 {
        lemma_chars_less_irreflexive(a.drop_first());
    }
}

pub proof fn lemma_chars_less_total(a: Seq<char>, b: Seq<char>)
    ensures
        a == b || chars_less(a, b) || chars_less(b, a),
    decreases a.len(),
{
    if a.len() > 0 && b.len() > 0 && a[0] == b[0] {
        lemma_chars_less_total(a.drop_first(), b.drop_first());
        if a.drop_first() == b.drop_first() {
            assert(a =~= seq![a[0]] + a.drop_first());
            assert(b =~= seq![b[0]] + b.drop_first());
        }
    } else if a.len() == 0 && b.len() == 0 {
        assert(a =~= b);
    }
}

pub proof fn lemma_chars_less_transitive(a: Seq<char>, b: Seq<char>, c: Seq<char>)
    requires
        chars_less(a, b),
        chars_less(b, c),
    ensures
        chars_less(a, c),
    decreases a.len(),
{
    if a.len() > 0 && b.len() > 0 && c.len() > 0 && a[0] == b[0] && b[0] == c[0] {
        lemma_chars_less_transitive(a.drop_first(), b.drop_first(), c.drop_first());
    }
}

} // verus!

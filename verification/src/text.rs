//! Character-sequence operations on file and partition names.
use vstd::prelude::*;
use vstd::utf8::{decode_utf8, valid_utf8};

verus! {

/// Whether `s` ends with `suf`.
pub open spec fn has_suffix(s: Seq<char>, suf: Seq<char>) -> bool {
    suf.len() <= s.len() && s.subrange(s.len() - suf.len(), s.len() as int) == suf
}

/// Whether `s` starts with `pre`.
pub open spec fn has_prefix(s: Seq<char>, pre: Seq<char>) -> bool {
    pre.len() <= s.len() && s.subrange(0, pre.len() as int) == pre
}

/// `s` without the suffix `suf`, when it ends with it.
pub open spec fn without_suffix(s: Seq<char>, suf: Seq<char>) -> Option<Seq<char>> {
    if has_suffix(s, suf) {
        Some(s.subrange(0, s.len() - suf.len()))
    } else {
        None
    }
}

/// Whether `pat` occurs in `s` at index `i`.
pub open spec fn occurs_at(s: Seq<char>, pat: Seq<char>, i: int) -> bool {
    0 <= i && i + pat.len() <= s.len() && s.subrange(i, i + pat.len()) == pat
}

/// Whether `pat` occurs anywhere in `s`.
pub open spec fn contains_seq(s: Seq<char>, pat: Seq<char>) -> bool {
    exists|i: int| occurs_at(s, pat, i)
}

/// `s` with every non-overlapping occurrence of the non-empty `from`, scanned
/// from the left, replaced by `to`.
pub open spec fn replace_all(s: Seq<char>, from: Seq<char>, to: Seq<char>) -> Seq<char>
    decreases s.len(),
{
    if from.len() == 0 || s.len() == 0 {
        s
    } else if has_prefix(s, from) {
        to + replace_all(s.skip(from.len() as int), from, to)
    } else {
        seq![s[0]] + replace_all(s.skip(1), from, to)
    }
}

/// The code of `c` with ASCII upper-case letters mapped to lower case.
pub open spec fn ascii_lower(c: char) -> u32 {
    if 'A' <= c && c <= 'Z' {
        (c as u32 + 32) as u32
    } else {
        c as u32
    }
}

/// Equality of two character sequences up to ASCII case.
pub open spec fn same_ignoring_ascii_case(a: Seq<char>, b: Seq<char>) -> bool {
    a.len() == b.len() && forall|i: int| 0 <= i < a.len() ==> ascii_lower(a[i]) == ascii_lower(b[i])
}

/// The position of the first NUL character of `s`, or its length when it holds none.
pub open spec fn first_nul(s: Seq<char>) -> int
    decreases s.len(),
{
    if s.len() == 0 {
        0
    } else if s[0] == '\0' {
        0
    } else {
        1 + first_nul(s.drop_first())
    }
}

/// The text of a NUL-terminated string: `s` up to, not including, its first NUL.
pub open spec fn before_nul(s: Seq<char>) -> Seq<char> {
    s.take(first_nul(s))
}

/// The decimal digits of `n`, most significant first, with no leading zeros.
pub open spec fn decimal(n: nat) -> Seq<char>
    decreases n,
{
    if n < 10 {
        seq![digit_char(n)]
    } else {
        decimal(n / 10).push(digit_char(n % 10))
    }
}

/// The ASCII digit of a value below 10.
pub open spec fn digit_char(d: nat) -> char {
    (d + 48) as char
}

/// Whether a file name, joined to a directory, names an entry of that directory: it holds
/// no '/' and is not "..".
pub open spec fn within_dir(name: Seq<char>) -> bool {
    !name.contains('/') && !(name.len() == 2 && name[0] == '.' && name[1] == '.')
}

/// The decimal spelling of a number holds only ASCII digits.
pub proof fn lemma_decimal_digits(n: nat)
    ensures
        forall|i: int| 0 <= i < decimal(n).len() ==> is_digit(#[trigger] decimal(n)[i]),
    decreases n,
{
    if n >= 10 {
        lemma_decimal_digits(n / 10);
        assert forall|i: int| 0 <= i < decimal(n).len() implies is_digit(#[trigger] decimal(n)[i]) by {
            if i < decimal(n / 10).len() {
                assert(decimal(n)[i] == decimal(n / 10)[i]);
            }
        }
    }
}

/// What `str::to_lowercase` returns for a string with the given characters.
pub uninterp spec fn lowercase_of(s: Seq<char>) -> Seq<char>;

/// The final component that `Path::file_name` finds in a path with the given characters.
pub uninterp spec fn path_file_name(p: Seq<char>) -> Option<Seq<char>>;

/// What `String::from_utf8_lossy` decodes from the given bytes.
pub uninterp spec fn utf8_lossy_of(bytes: Seq<u8>) -> Seq<char>;

/// The characters of a string slice, in order.
pub fn chars_of(s: &str) -> (r: Vec<char>)
    ensures
        r@ == s@,
{
    let mut r: Vec<char> = Vec::new();
    for c in it: s.chars()
        invariant
            r@ == it.seq().take(it.index() as int),
    {
        r.push(c);
    }
    r
}

/// Trusted: `String::push` appends one character.
#[verifier::external_body]
fn push_char(s: &mut String, c: char)
    ensures
        final(s)@ == old(s)@.push(c),
{
    s.push(c);
}

/// A `String` holding the given characters.
pub fn string_of(v: &[char]) -> (r: String)
    ensures
        r@ == v@,
{
    let mut r = String::new();
    let mut i: usize = 0;
    while i < v.len()
        invariant
            i <= v.len(),
            r@ == v@.take(i as int),
        decreases v.len() - i,
    {
        push_char(&mut r, v[i]);
        assert(v@.take(i + 1) =~= v@.take(i as int).push(v@[i as int]));
        i = i + 1;
    }
    assert(v@.take(v.len() as int) =~= v@);
    r
}

/// Trusted: `str::to_lowercase` (Unicode lower-casing); the result is named by
/// `lowercase_of` and nothing more is claimed of it.
#[verifier::external_body]
pub(crate) fn to_lowercase(s: &str) -> (r: String)
    ensures
        r@ == lowercase_of(s@),
{
    s.to_lowercase()
}

/// Trusted: `Path::file_name` on the path spelled by `s`, its result turned back into a
/// `String` (a component of valid UTF-8 is valid UTF-8, so nothing is lost). The result
/// is named by `path_file_name`; as documented, it is the final component of the path
/// (so it holds no '/' separator) and there is none when the path ends in "..".
#[verifier::external_body]
pub(crate) fn file_name(s: &str) -> (r: Option<String>)
    ensures
        match r {
            Some(n) => path_file_name(s@) == Some(n@),
            None => path_file_name(s@) is None,
        },
        r matches Some(n) ==> within_dir(n@),
{
    std::path::Path::new(s).file_name().map(|n| n.to_string_lossy().into_owned())
}

/// Trusted: `String::from_utf8_lossy`. The result is named by `utf8_lossy_of`; on valid
/// UTF-8 it is, as the documentation says, the decoded text itself.
#[verifier::external_body]
pub(crate) fn utf8_lossy(bytes: &[u8]) -> (r: String)
    ensures
        r@ == utf8_lossy_of(bytes@),
        valid_utf8(bytes@) ==> r@ == decode_utf8(bytes@),
{
    String::from_utf8_lossy(bytes).into_owned()
}

/// Trusted: `std::str::from_utf8`, which succeeds exactly on valid UTF-8 and then
/// yields the decoded text.
#[verifier::external_body]
pub(crate) fn utf8_strict(bytes: &[u8]) -> (r: Option<String>)
    ensures
        r is Some <==> valid_utf8(bytes@),
        r matches Some(s) ==> s@ == decode_utf8(bytes@),
{
    std::str::from_utf8(bytes).ok().map(|s| s.to_string())
}

/// Whether `s` ends with `suf`.
pub fn ends_with(s: &[char], suf: &[char]) -> (r: bool)
    ensures
        r == has_suffix(s@, suf@),
{
    if suf.len() > s.len() {
        return false;
    }
    let off = s.len() - suf.len();
    let mut k: usize = 0;
    while k < suf.len()
        invariant
            off + suf.len() == s.len(),
            k <= suf.len(),
            forall|j: int| 0 <= j < k ==> s@[off + j] == suf@[j],
        decreases suf.len() - k,
    {
        if s[off + k] != suf[k] {
            assert(s@.subrange(off as int, s.len() as int)[k as int] != suf@[k as int]);
            return false;
        }
        k = k + 1;
    }
    assert(s@.subrange(off as int, s.len() as int) =~= suf@);
    true
}

/// Whether `pat` occurs in `s` starting at index `i`.
pub fn occurs_at_index(s: &[char], pat: &[char], i: usize) -> (r: bool)
    ensures
        r == occurs_at(s@, pat@, i as int),
{
    if i > s.len() || pat.len() > s.len() - i {
        return false;
    }
    let mut k: usize = 0;
    while k < pat.len()
        invariant
            i + pat.len() <= s.len(),
            k <= pat.len(),
            forall|j: int| 0 <= j < k ==> s@[i + j] == pat@[j],
        decreases pat.len() - k,
    {
        if s[i + k] != pat[k] {
            assert(s@.subrange(i as int, i + pat.len())[k as int] != pat@[k as int]);
            return false;
        }
        k = k + 1;
    }
    assert(s@.subrange(i as int, i + pat.len()) =~= pat@);
    true
}

/// Whether `s` starts with `pre`.
pub fn starts_with(s: &[char], pre: &[char]) -> (r: bool)
    ensures
        r == has_prefix(s@, pre@),
{
    occurs_at_index(s, pre, 0)
}

/// Whether `pat` occurs anywhere in `s`.
pub fn contains(s: &[char], pat: &[char]) -> (r: bool)
    ensures
        r == contains_seq(s@, pat@),
{
    if pat.len() > s.len() {
        assert(!contains_seq(s@, pat@));
        return false;
    }
    let last = s.len() - pat.len();
    let mut i: usize = 0;
    while i < last
        invariant
            last == s.len() - pat.len(),
            i <= last,
            forall|j: int| 0 <= j < i ==> !occurs_at(s@, pat@, j),
        decreases last - i,
    {
        if occurs_at_index(s, pat, i) {
            return true;
        }
        i = i + 1;
    }
    if occurs_at_index(s, pat, last) {
        return true;
    }
    assert forall|j: int| !occurs_at(s@, pat@, j) by {
        if 0 <= j < i {
        }
    }
    false
}

/// Whether `s` holds the character `c`.
pub fn contains_char(s: &[char], c: char) -> (r: bool)
    ensures
        r == s@.contains(c),
{
    let mut i: usize = 0;
    while i < s.len()
        invariant
            i <= s.len(),
            forall|j: int| 0 <= j < i ==> s@[j] != c,
        decreases s.len() - i,
    {
        if s[i] == c {
            return true;
        }
        i = i + 1;
    }
    false
}

/// `s` without the suffix `suf`, when it ends with it.
pub fn strip_suffix(s: &[char], suf: &[char]) -> (r: Option<Vec<char>>)
    ensures
        match r {
            Some(v) => without_suffix(s@, suf@) == Some(v@),
            None => without_suffix(s@, suf@) is None,
        },
{
    if ends_with(s, suf) {
        let mut v: Vec<char> = Vec::new();
        let n = s.len() - suf.len();
        let mut i: usize = 0;
        while i < n
            invariant
                n <= s.len(),
                i <= n,
                v@ == s@.subrange(0, i as int),
            decreases n - i,
        {
            v.push(s[i]);
            assert(s@.subrange(0, i + 1) =~= s@.subrange(0, i as int).push(s@[i as int]));
            i = i + 1;
        }
        Some(v)
    } else {
        None
    }
}

/// The concatenation of `a` and `b`.
pub fn concat(a: &[char], b: &[char]) -> (r: Vec<char>)
    ensures
        r@ == a@ + b@,
{
    let mut v: Vec<char> = Vec::new();
    let mut i: usize = 0;
    while i < a.len()
        invariant
            i <= a.len(),
            v@ == a@.take(i as int),
        decreases a.len() - i,
    {
        v.push(a[i]);
        assert(a@.take(i + 1) =~= a@.take(i as int).push(a@[i as int]));
        i = i + 1;
    }
    let mut j: usize = 0;
    while j < b.len()
        invariant
            i == a.len(),
            j <= b.len(),
            v@ == a@ + b@.take(j as int),
        decreases b.len() - j,
    {
        v.push(b[j]);
        assert(b@.take(j + 1) =~= b@.take(j as int).push(b@[j as int]));
        j = j + 1;
    }
    assert(a@.take(a.len() as int) =~= a@);
    assert(b@.take(b.len() as int) =~= b@);
    v
}

fn ascii_lower_code(c: char) -> (r: u32)
    ensures
        r == ascii_lower(c),
{
    if 'A' <= c && c <= 'Z' {
        c as u32 + 32
    } else {
        c as u32
    }
}

/// Equality up to ASCII case, as `str::eq_ignore_ascii_case` decides it.
pub fn eq_ignore_ascii_case(a: &[char], b: &[char]) -> (r: bool)
    ensures
        r == same_ignoring_ascii_case(a@, b@),
{
    if a.len() != b.len() {
        return false;
    }
    let mut i: usize = 0;
    while i < a.len()
        invariant
            a.len() == b.len(),
            i <= a.len(),
            forall|j: int| 0 <= j < i ==> ascii_lower(a@[j]) == ascii_lower(b@[j]),
        decreases a.len() - i,
    {
        if ascii_lower_code(a[i]) != ascii_lower_code(b[i]) {
            return false;
        }
        i = i + 1;
    }
    true
}

/// `s` up to its first NUL (see `before_nul`).
pub fn cut_at_nul(s: &[char]) -> (r: Vec<char>)
    ensures
        r@ == before_nul(s@),
{
    let mut v: Vec<char> = Vec::new();
    let mut i: usize = 0;
    assert(s@.skip(0) =~= s@);
    while i < s.len() && s[i] != '\0'
        invariant
            i <= s.len(),
            first_nul(s@) == i + first_nul(s@.skip(i as int)),
            v@ == s@.take(i as int),
        decreases s.len() - i,
    {
        assert(s@.skip(i as int).drop_first() =~= s@.skip(i + 1));
        v.push(s[i]);
        assert(s@.take(i + 1) =~= s@.take(i as int).push(s@[i as int]));
        i = i + 1;
    }
    proof {
        if i < s.len() {
            assert(s@.skip(i as int)[0] == s@[i as int]);
        }
    }
    v
}

/// `s` with every non-overlapping occurrence of `from` replaced by `to`, as
/// `str::replace` does.
pub fn replace(s: &[char], from: &[char], to: &[char]) -> (r: Vec<char>)
    requires
        from.len() > 0,
    ensures
        r@ == replace_all(s@, from@, to@),
{
    let mut v: Vec<char> = Vec::new();
    let mut i: usize = 0;
    assert(s@.skip(0) =~= s@);
    while i < s.len()
        invariant
            from.len() > 0,
            i <= s.len(),
            v@ + replace_all(s@.skip(i as int), from@, to@) == replace_all(s@, from@, to@),
        decreases s.len() - i,
    {
        let rest = Ghost(s@.skip(i as int));
        if occurs_at_index(s, from, i) {
            assert(rest@.subrange(0, from.len() as int) =~= s@.subrange(i as int, i + from.len()));
            assert(rest@.skip(from.len() as int) =~= s@.skip(i + from.len()));
            let mut k: usize = 0;
            let ghost v0 = v@;
            while k < to.len()
                invariant
                    k <= to.len(),
                    v@ == v0 + to@.take(k as int),
                decreases to.len() - k,
            {
                v.push(to[k]);
                assert(to@.take(k + 1) =~= to@.take(k as int).push(to@[k as int]));
                k = k + 1;
            }
            assert(to@.take(to.len() as int) =~= to@);
            assert(v@ == v0 + to@);
            assert(v0 + replace_all(rest@, from@, to@) == v0 + (to@ + replace_all(
                rest@.skip(from.len() as int),
                from@,
                to@,
            )));
            assert(v0 + (to@ + replace_all(s@.skip(i + from.len()), from@, to@)) =~= v@
                + replace_all(s@.skip(i + from.len()), from@, to@));
            i = i + from.len();
        } else {
            proof {
                if has_prefix(rest@, from@) {
                    assert(rest@.subrange(0, from.len() as int) =~= s@.subrange(
                        i as int,
                        i + from.len(),
                    ));
                }
            }
            assert(rest@.skip(1) =~= s@.skip(i + 1));
            let ghost v0 = v@;
            v.push(s[i]);
            assert(v0 + (seq![s@[i as int]] + replace_all(s@.skip(i + 1), from@, to@)) =~= v@
                + replace_all(s@.skip(i + 1), from@, to@));
            i = i + 1;
        }
    }
    assert(s@.skip(s.len() as int) =~= Seq::<char>::empty());
    assert(v@ + Seq::<char>::empty() =~= v@);
    v
}

fn digit(d: usize) -> (c: char)
    requires
        d < 10,
    ensures
        c == digit_char(d as nat),
{
    let c = match d {
        0 => '0',
        1 => '1',
        2 => '2',
        3 => '3',
        4 => '4',
        5 => '5',
        6 => '6',
        7 => '7',
        8 => '8',
        _ => '9',
    };
    c
}

/// The decimal spelling of `n`, as `format!("{}", n)` writes it.
pub fn decimal_of(n: usize) -> (r: Vec<char>)
    ensures
        r@ == decimal(n as nat),
    decreases n,
{
    if n < 10 {
        let mut v: Vec<char> = Vec::new();
        v.push(digit(n));
        v
    } else {
        let mut v = decimal_of(n / 10);
        v.push(digit(n % 10));
        v
    }
}

/// The index of the last '.' in `name`, if any.
pub open spec fn last_dot(name: Seq<char>) -> Option<int>
    decreases name.len(),
{
    if name.len() == 0 {
        None
    } else if name.last() == '.' {
        Some(name.len() - 1)
    } else {
        last_dot(name.drop_last())
    }
}

/// The stem of a file name, as `Path::file_stem` documents it: the whole name when it
/// holds no '.' other than a leading one, else the part before the last '.'.
pub open spec fn stem(name: Seq<char>) -> Seq<char> {
    match last_dot(name) {
        Some(k) => if k == 0 {
            name
        } else {
            name.take(k)
        },
        None => name,
    }
}

/// The extension of a file name, as `Path::extension` documents it: none when the name
/// holds no '.' other than a leading one, else the part after the last '.'.
pub open spec fn extension(name: Seq<char>) -> Option<Seq<char>> {
    match last_dot(name) {
        Some(k) => if k == 0 {
            None
        } else {
            Some(name.skip(k + 1))
        },
        None => None,
    }
}

/// The final component of a path, or the path itself when it has none.
pub open spec fn base_or_self(p: Seq<char>) -> Seq<char> {
    match path_file_name(p) {
        Some(b) => b,
        None => p,
    }
}

/// The final component of a path, or nothing when it has none.
pub open spec fn base_or_empty(p: Seq<char>) -> Seq<char> {
    match path_file_name(p) {
        Some(b) => b,
        None => Seq::empty(),
    }
}

proof fn lemma_last_dot_bounds(name: Seq<char>)
    ensures
        last_dot(name) matches Some(k) ==> 0 <= k < name.len() && name[k] == '.',
        last_dot(name) is None ==> !name.contains('.'),
    decreases name.len(),
{
    if name.len() > 0 && name.last() != '.' {
        lemma_last_dot_bounds(name.drop_last());
        if last_dot(name) is None {
            assert forall|i: int| 0 <= i < name.len() implies name[i] != '.' by {
                if i < name.len() - 1 {
                    assert(name.drop_last()[i] == name[i]);
                }
            }
        }
    }
}

fn find_last_dot(name: &[char]) -> (r: Option<usize>)
    ensures
        match r {
            Some(k) => last_dot(name@) == Some(k as int) && k < name@.len(),
            None => last_dot(name@) is None,
        },
{
    let mut n = name.len();
    assert(name@.take(n as int) =~= name@);
    while n > 0
        invariant
            n <= name@.len(),
            last_dot(name@) == last_dot(name@.take(n as int)),
        decreases n,
    {
        if name[n - 1] == '.' {
            return Some(n - 1);
        }
        assert(name@.take(n as int).drop_last() =~= name@.take(n - 1));
        n = n - 1;
    }
    None
}

fn take_chars(s: &[char], n: usize) -> (r: Vec<char>)
    requires
        n <= s@.len(),
    ensures
        r@ == s@.take(n as int),
{
    let mut v: Vec<char> = Vec::new();
    let mut i: usize = 0;
    while i < n
        invariant
            n <= s@.len(),
            i <= n,
            v@ == s@.take(i as int),
        decreases n - i,
    {
        v.push(s[i]);
        assert(s@.take(i + 1) =~= s@.take(i as int).push(s@[i as int]));
        i = i + 1;
    }
    v
}

fn skip_chars(s: &[char], n: usize) -> (r: Vec<char>)
    requires
        n <= s@.len(),
    ensures
        r@ == s@.skip(n as int),
{
    let mut v: Vec<char> = Vec::new();
    let mut i: usize = n;
    while i < s.len()
        invariant
            n <= i <= s@.len(),
            v@ == s@.subrange(n as int, i as int),
        decreases s.len() - i,
    {
        v.push(s[i]);
        assert(s@.subrange(n as int, i + 1) =~= s@.subrange(n as int, i as int).push(
            s@[i as int],
        ));
        i = i + 1;
    }
    v
}

/// The stem of a file name (see `stem`).
pub fn stem_of(name: &[char]) -> (r: Vec<char>)
    ensures
        r@ == stem(name@),
{
    match find_last_dot(name) {
        Some(k) => if k == 0 {
            take_chars(name, name.len())
        } else {
            take_chars(name, k)
        },
        None => take_chars(name, name.len()),
    }
}

/// The extension of a file name (see `extension`).
pub fn extension_of(name: &[char]) -> (r: Option<Vec<char>>)
    ensures
        match r {
            Some(e) => extension(name@) == Some(e@),
            None => extension(name@) is None,
        },
{
    let n = name.len();
    match find_last_dot(name) {
        Some(k) => if k == 0 {
            None
        } else {
            assert(k < n);
            Some(skip_chars(name, k + 1))
        },
        None => None,
    }
}

/// The final component of the path `p`, or `p` itself when it has none.
pub fn base_name(p: &str) -> (r: String)
    ensures
        r@ == base_or_self(p@),
{
    match file_name(p) {
        Some(b) => b,
        None => p.to_owned(),
    }
}

/// The final component of the path `p`, or the empty string when it has none.
pub fn base_name_or_empty(p: &str) -> (r: String)
    ensures
        r@ == base_or_empty(p@),
{
    match file_name(p) {
        Some(b) => b,
        None => String::new(),
    }
}

/// Whether the Unicode lower-case form of `name` ends with `suffix`.
pub fn lowercase_ends_with(name: &str, suffix: &str) -> (r: bool)
    ensures
        r == has_suffix(lowercase_of(name@), suffix@),
{
    let lower = to_lowercase(name);
    let lc = chars_of(lower.as_str());
    let sc = chars_of(suffix);
    ends_with(lc.as_slice(), sc.as_slice())
}

/// Whether `c` is an ASCII decimal digit.
pub open spec fn is_digit(c: char) -> bool {
    '0' <= c && c <= '9'
}

/// The value of a string of ASCII decimal digits.
pub open spec fn digits_value(s: Seq<char>) -> nat
    decreases s.len(),
{
    if s.len() == 0 {
        0
    } else {
        digits_value(s.drop_last()) * 10 + (s.last() as nat - 48) as nat
    }
}

/// `s` without one leading '+'.
pub open spec fn unsigned_digits(s: Seq<char>) -> Seq<char> {
    if s.len() > 0 && s[0] == '+' {
        s.skip(1)
    } else {
        s
    }
}

/// Whether every character of `d` is an ASCII digit.
pub open spec fn all_digits(d: Seq<char>) -> bool {
    forall|i: int| 0 <= i < d.len() ==> is_digit(#[trigger] d[i])
}

/// What `str::parse::<u32>` gives, as its documentation states: an optional leading '+'
/// then one or more ASCII digits, whose value must fit in a `u32`.
pub open spec fn parsed_u32(s: Seq<char>) -> Option<u32> {
    let d = unsigned_digits(s);
    if d.len() == 0 || !all_digits(d) {
        None
    } else if digits_value(d) > u32::MAX {
        None
    } else {
        Some(digits_value(d) as u32)
    }
}

proof fn lemma_digits_value_grows(s: Seq<char>, i: int)
    requires
        0 <= i <= s.len(),
        forall|k: int| 0 <= k < s.len() ==> is_digit(#[trigger] s[k]),
    ensures
        digits_value(s.take(i)) <= digits_value(s),
    decreases s.len() - i,
{
    if i < s.len() {
        lemma_digits_value_grows(s, i + 1);
        assert(s.take(i + 1).drop_last() =~= s.take(i));
    } else {
        assert(s.take(i) =~= s);
    }
}

/// Parses a decimal `u32` the way `str::parse::<u32>` does.
pub fn parse_u32(s: &[char]) -> (r: Option<u32>)
    ensures
        r == parsed_u32(s@),
{
    let start: usize = if s.len() > 0 && s[0] == '+' { 1 } else { 0 };
    let ghost d = unsigned_digits(s@);
    assert(d =~= s@.skip(start as int));
    if start == s.len() {
        return None;
    }
    let mut v: u64 = 0;
    let mut i: usize = start;
    while i < s.len()
        invariant
            start <= i <= s@.len(),
            d =~= s@.skip(start as int),
            d == unsigned_digits(s@),
            forall|k: int| start <= k < i ==> is_digit(#[trigger] s@[k]),
            v as nat == digits_value(d.take(i - start)),
            v <= u32::MAX,
        decreases s.len() - i,
    {
        let c = s[i];
        if !('0' <= c && c <= '9') {
            assert(d[i - start] == c);
            assert(!is_digit(d[i - start]));
            assert(!all_digits(d));
            return None;
        }
        assert(d.take(i + 1 - start).drop_last() =~= d.take(i - start));
        assert(d.take(i + 1 - start).last() == c);
        let nv = v * 10 + (c as u64 - 48);
        if nv > 0xFFFF_FFFF {
            proof {
                if all_digits(d) {
                    lemma_digits_value_grows(d, i + 1 - start);
                }
            }
            return None;
        }
        v = nv;
        i = i + 1;
    }
    assert(d.take(s.len() - start) =~= d);
    Some(v as u32)
}

/// The text of a NUL-terminated field: its bytes up to the first zero byte, decoded as
/// UTF-8 with invalid sequences replaced.
pub open spec fn nul_terminated_text(buf: Seq<u8>) -> Seq<char> {
    utf8_lossy_of(buf.take(crate::bytes::first_zero(buf)))
}

/// Reads a NUL-terminated field (see `nul_terminated_text`).
pub fn read_null_terminated(buf: &[u8]) -> (r: String)
    ensures
        r@ == nul_terminated_text(buf@),
{
    let end = crate::bytes::find_first_zero(buf);
    assert(buf@.subrange(0, end as int) =~= buf@.take(end as int));
    utf8_lossy(&buf[0..end])
}

/// The name "partition_N.img" given to an extracted partition without a usable name.
pub open spec fn numbered_partition(n: nat) -> Seq<char> {
    "partition_"@ + decimal(n) + ".img"@
}

/// A numbered partition name stays inside the output directory.
pub proof fn lemma_numbered_partition_within(n: nat)
    ensures
        within_dir(numbered_partition(n)),
{
    reveal_strlit("partition_");
    reveal_strlit(".img");
    lemma_decimal_digits(n);
    let s = numbered_partition(n);
    assert forall|i: int| 0 <= i < s.len() implies s[i] != '/' by {
        if 10 <= i < 10 + decimal(n).len() {
            assert(s[i] == decimal(n)[i - 10]);
        }
    }
}

/// Spells "partition_N.img" (see `numbered_partition`).
pub fn numbered_partition_name(n: usize) -> (r: String)
    ensures
        r@ == numbered_partition(n as nat),
{
    let a = concat(chars_of("partition_").as_slice(), decimal_of(n).as_slice());
    let b = concat(a.as_slice(), chars_of(".img").as_slice());
    string_of(b.as_slice())
}

/// The stem of the final component of a path, or `default` when it has none (as
/// `Path::file_stem` with a default).
pub open spec fn file_stem_or(p: Seq<char>, default: Seq<char>) -> Seq<char> {
    match path_file_name(p) {
        Some(n) => stem(n),
        None => default,
    }
}

/// The stem of a path's final component, or `default` (see `file_stem_or`).
pub fn file_stem(p: &str, default: &str) -> (r: String)
    ensures
        r@ == file_stem_or(p@, default@),
{
    match file_name(p) {
        Some(n) => string_of(stem_of(chars_of(n.as_str()).as_slice()).as_slice()),
        None => default.to_owned(),
    }
}

} // verus!

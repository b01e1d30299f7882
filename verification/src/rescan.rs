//! Reading an existing instance: what its files and metadata say about the
//! Minecraft version and loader, and how the mods found there are recorded.
use crate::domain::{FileHash, HashAlgorithm, InstalledMod, ModLoader, ProfileTarget, ProjectRef, ProjectVersion};
use crate::text::{
    chars_of, contains, contains_text, decimal_string, first_occurrence, find_text,
    has_suffix, is_ascii_digit, is_ascii_digit_char, is_whitespace, is_whitespace_char,
    squeeze_whitespace, squeeze_whitespace_chars, string_of, to_lowercase, unicode_char_lowercase,
    char_to_lowercase, unicode_lowercase, ends_with, text_lt, decimal, join2, str_equal, text_less,
    trim, trimmed, texts, joined, join_strings,
};
use std::cmp::Ordering;
use vstd::prelude::*;

verus! {

/// Where a text is cut into pieces.
#[derive(Clone, Copy, PartialEq, Eq, Structural)]
pub enum Cut {
    /// At each occurrence of this character.
    At(char),
    /// At each character that can not be part of a version number.
    NonVersion,
    /// At each character that is not an ASCII letter or digit.
    NotAlnum,
}

pub open spec fn cuts(cut: Cut, c: char) -> bool {
    match cut {
        Cut::At(x) => c == x,
        Cut::NonVersion => !(is_ascii_digit(c) || c == '.'),
        Cut::NotAlnum => !crate::text::is_ascii_alnum(c),
    }
}

fn cuts_exec(cut: Cut, c: char) -> (r: bool)
    ensures
        r == cuts(cut, c),
{
    match cut {
        Cut::At(x) => c == x,
        Cut::NonVersion => !(is_ascii_digit_char(c) || c == '.'),
        Cut::NotAlnum => !crate::text::is_ascii_alnum_char(c),
    }
}

/// The pieces `str::split` yields: the text between cut characters, empty
/// pieces included; there is always at least one piece.
pub open spec fn split_by(s: Seq<char>, cut: Cut) -> Seq<Seq<char>>
    decreases s.len(),
{
    if s.len() == 0 {
        seq![Seq::empty()]
    } else {
        let rest = split_by(s.drop_last(), cut);
        if cuts(cut, s.last()) {
            rest.push(Seq::empty())
        } else {
            rest.update(rest.len() - 1, rest.last().push(s.last()))
        }
    }
}

pub proof fn lemma_split_nonempty(s: Seq<char>, cut: Cut)
    ensures
        split_by(s, cut).len() >= 1,
    decreases s.len(),
{
    if s.len() > 0 {
        lemma_split_nonempty(s.drop_last(), cut);
    }
}

/// The character views of a list of character vectors.
pub open spec fn views(v: Seq<Vec<char>>) -> Seq<Seq<char>> {
    v.map_values(|p: Vec<char>| p@)
}

/// The pieces of a text between cuts.
pub fn split_chars(s: &Vec<char>, cut: Cut) -> (r: Vec<Vec<char>>)
    ensures
        views(r@) == split_by(s@, cut),
{
    let mut done: Vec<Vec<char>> = Vec::new();
    let mut current: Vec<char> = Vec::new();
    let mut i: usize = 0;
    assert(s@.take(0) =~= Seq::<char>::empty());
    assert(views(done@).push(current@) =~= split_by(s@.take(0), cut));
    while i < s.len()
        invariant
            i <= s.len(),
            views(done@).push(current@) == split_by(s@.take(i as int), cut),
        decreases s.len() - i,
    {
        let c = s[i];
        proof {
            lemma_split_nonempty(s@.take(i as int), cut);
            assert(s@.take(i + 1).drop_last() =~= s@.take(i as int));
            assert(s@.take(i + 1).last() == c);
        }
        let ghost before = views(done@);
        if cuts_exec(cut, c) {
            let piece = current;
            done.push(piece);
            current = Vec::new();
            proof {
                assert(views(done@) =~= before.push(piece@));
                assert(views(done@).push(current@) =~= split_by(s@.take(i + 1), cut));
            }
        } else {
            let ghost old_current = current@;
            current.push(c);
            proof {
                assert(views(done@) =~= before);
                assert(before.push(current@) =~= before.push(old_current).update(before.len() as int, old_current.push(c)));
            }
        }
        i = i + 1;
    }
    assert(s@.take(s.len() as int) =~= s@);
    let ghost before = views(done@);
    let last = current;
    done.push(last);
    assert(views(done@) =~= before.push(last@));
    done
}

/// Every character is an ASCII digit.
pub open spec fn all_digits(s: Seq<char>) -> bool {
    forall|j: int| 0 <= j < s.len() ==> is_ascii_digit(#[trigger] s[j])
}

/// `looks_like_minecraft_version`: two to four dot-separated parts, each a
/// non-empty run of ASCII digits.
pub open spec fn looks_like_version(s: Seq<char>) -> bool {
    let parts = split_by(s, Cut::At('.'));
    &&& 2 <= parts.len() <= 4
    &&& forall|i: int| 0 <= i < parts.len() ==> #[trigger] parts[i].len() > 0 && all_digits(parts[i])
}

fn digits_only(s: &Vec<char>) -> (r: bool)
    ensures
        r == (s.len() > 0 && all_digits(s@)),
{
    if s.len() == 0 {
        return false;
    }
    let mut i: usize = 0;
    while i < s.len()
        invariant
            i <= s.len(),
            forall|j: int| 0 <= j < i ==> is_ascii_digit(#[trigger] s@[j]),
        decreases s.len() - i,
    {
        if !is_ascii_digit_char(s[i]) {
            return false;
        }
        i = i + 1;
    }
    true
}

fn looks_like_version_chars(s: &Vec<char>) -> (r: bool)
    ensures
        r == looks_like_version(s@),
{
    let parts = split_chars(s, Cut::At('.'));
    let ghost view = views(parts@);
    assert(view.len() == parts.len());
    if parts.len() < 2 || parts.len() > 4 {
        return false;
    }
    let mut i: usize = 0;
    while i < parts.len()
        invariant
            i <= parts.len(),
            view == views(parts@),
            view == split_by(s@, Cut::At('.')),
            2 <= parts.len() <= 4,
            forall|j: int| 0 <= j < i ==> #[trigger] view[j].len() > 0 && all_digits(view[j]),
        decreases parts.len() - i,
    {
        if !digits_only(&parts[i]) {
            assert(view[i as int] == parts@[i as int]@);
            return false;
        }
        assert(view[i as int] == parts@[i as int]@);
        i = i + 1;
    }
    true
}

/// Whether a text has the shape of a Minecraft version such as `1.20.1`.
pub fn looks_like_minecraft_version(value: &str) -> (r: bool)
    ensures
        r == looks_like_version(value@),
{
    looks_like_version_chars(&chars_of(value))
}

/// The value of a run of ASCII digits.
pub open spec fn digits_value(s: Seq<char>) -> int
    decreases s.len(),
{
    if s.len() == 0 {
        0
    } else {
        digits_value(s.drop_last()) * 10 + (s.last() as int - 48)
    }
}

/// `part.parse::<u32>().unwrap_or_default()`: an optional `+` and at least
/// one digit whose value fits in `u32`, else zero.
pub open spec fn number_or_zero(s: Seq<char>) -> int {
    let body = if s.len() > 0 && s[0] == '+' {
        s.drop_first()
    } else {
        s
    };
    if body.len() > 0 && all_digits(body) && digits_value(body) <= u32::MAX {
        digits_value(body)
    } else {
        0
    }
}

proof fn lemma_digits_value_grows(s: Seq<char>, i: int)
    requires
        0 <= i <= s.len(),
        all_digits(s),
    ensures
        digits_value(s.take(i)) <= digits_value(s),
        0 <= digits_value(s.take(i)),
    decreases s.len() - i,
{
    if i < s.len() {
        lemma_digits_value_grows(s, i + 1);
        assert(s.take(i + 1).drop_last() =~= s.take(i));
        assert(is_ascii_digit(s[i]));
        lemma_digits_value_nonneg(s.take(i));
    } else {
        assert(s.take(i) =~= s);
        lemma_digits_value_nonneg(s);
    }
}

proof fn lemma_digits_value_nonneg(s: Seq<char>)
    requires
        all_digits(s),
    ensures
        0 <= digits_value(s),
    decreases s.len(),
{
    if s.len() > 0 {
        assert(is_ascii_digit(s.last()));
        lemma_digits_value_nonneg(s.drop_last());
    }
}

fn number_or_zero_exec(s: &Vec<char>) -> (r: u32)
    ensures
        r == number_or_zero(s@),
{
    let start: usize = if s.len() > 0 && s[0] == '+' {
        1
    } else {
        0
    };
    let ghost body = if s@.len() > 0 && s@[0] == '+' {
        s@.drop_first()
    } else {
        s@
    };
    assert(body =~= s@.skip(start as int));
    if start >= s.len() {
        return 0;
    }
    let mut value: u64 = 0;
    let mut i: usize = start;
    while i < s.len()
        invariant
            start <= i <= s.len(),
            body == s@.skip(start as int),
            number_or_zero(s@) == if body.len() > 0 && all_digits(body) && digits_value(body) <= u32::MAX {
                digits_value(body)
            } else {
                0
            },
            forall|j: int| start <= j < i ==> is_ascii_digit(#[trigger] s@[j]),
            value == digits_value(body.take(i - start)),
            value <= u32::MAX,
        decreases s.len() - i,
    {
        let c = s[i];
        proof {
            assert(body.take(i - start + 1).drop_last() =~= body.take(i - start));
            assert(body.take(i - start + 1).last() == c);
        }
        if !is_ascii_digit_char(c) {
            assert(body[i - start] == c);
            assert(!all_digits(body));
            return 0;
        }
        let d: u64 = (c as u32 - 48) as u64;
        let next: u64 = value * 10 + d;
        if next > 4294967295 {
            if rest_all_digits(s, i + 1) {
                proof {
                    assert forall|j: int| 0 <= j < body.len() implies is_ascii_digit(#[trigger] body[j]) by {
                        assert(body[j] == s@[j + start]);
                    }
                    lemma_digits_value_grows(body, i - start + 1);
                }
            } else {
                proof {
                    let j = choose|j: int| i + 1 <= j < s.len() && !is_ascii_digit(#[trigger] s@[j]);
                    assert(body[j - start] == s@[j]);
                }
            }
            return 0;
        }
        value = next;
        i = i + 1;
    }
    assert(body.take(s.len() - start) =~= body);
    value as u32
}

fn rest_all_digits(s: &Vec<char>, from: usize) -> (r: bool)
    requires
        from <= s.len(),
    ensures
        r == forall|j: int| from <= j < s.len() ==> is_ascii_digit(#[trigger] s@[j]),
{
    let mut i: usize = from;
    while i < s.len()
        invariant
            from <= i <= s.len(),
            forall|j: int| from <= j < i ==> is_ascii_digit(#[trigger] s@[j]),
        decreases s.len() - i,
    {
        if !is_ascii_digit_char(s[i]) {
            return false;
        }
        i = i + 1;
    }
    true
}


/// The numbers a version is compared by: each dot-separated part parsed as
/// `u32`, zero where that fails.
pub open spec fn version_numbers(s: Seq<char>) -> Seq<int> {
    split_by(s, Cut::At('.')).map_values(|p: Seq<char>| number_or_zero(p))
}

/// Lexicographic order of number lists, as `Vec::cmp`: negative, zero or positive.
pub open spec fn sequence_order(a: Seq<int>, b: Seq<int>) -> int
    decreases a.len(),
{
    if a.len() == 0 {
        if b.len() == 0 {
            0
        } else {
            -1
        }
    } else if b.len() == 0 {
        1
    } else if a[0] < b[0] {
        -1
    } else if a[0] > b[0] {
        1
    } else {
        sequence_order(a.drop_first(), b.drop_first())
    }
}

pub open spec fn widen(v: Seq<u32>) -> Seq<int> {
    v.map_values(|x: u32| x as int)
}

fn numbers_of(s: &Vec<char>) -> (r: Vec<u32>)
    ensures
        widen(r@) == version_numbers(s@),
{
    let parts = split_chars(s, Cut::At('.'));
    let ghost view = views(parts@);
    let mut out: Vec<u32> = Vec::new();
    let mut i: usize = 0;
    while i < parts.len()
        invariant
            i <= parts.len(),
            view == views(parts@),
            view == split_by(s@, Cut::At('.')),
            out.len() == i,
            forall|j: int| 0 <= j < i ==> #[trigger] out@[j] as int == number_or_zero(view[j]),
        decreases parts.len() - i,
    {
        let n = number_or_zero_exec(&parts[i]);
        assert(view[i as int] == parts@[i as int]@);
        out.push(n);
        i = i + 1;
    }
    assert(widen(out@) =~= version_numbers(s@));
    out
}

/// The order of two number lists: -1, 0 or 1.
fn order_numbers(a: &Vec<u32>, b: &Vec<u32>) -> (r: i8)
    ensures
        r == sequence_order(widen(a@), widen(b@)),
{
    let mut i: usize = 0;
    proof {
        assert(widen(a@).skip(0) =~= widen(a@));
        assert(widen(b@).skip(0) =~= widen(b@));
    }
    while i < a.len() && i < b.len()
        invariant
            i <= a.len(),
            i <= b.len(),
            sequence_order(widen(a@), widen(b@)) == sequence_order(
                widen(a@).skip(i as int),
                widen(b@).skip(i as int),
            ),
        decreases a.len() - i,
    {
        assert(widen(a@).skip(i as int)[0] == a@[i as int] as int);
        assert(widen(b@).skip(i as int)[0] == b@[i as int] as int);
        if a[i] < b[i] {
            return -1;
        }
        if a[i] > b[i] {
            return 1;
        }
        proof {
            assert(widen(a@).skip(i as int).drop_first() =~= widen(a@).skip(i + 1));
            assert(widen(b@).skip(i as int).drop_first() =~= widen(b@).skip(i + 1));
        }
        i = i + 1;
    }
    if i < a.len() {
        1
    } else if i < b.len() {
        -1
    } else {
        0
    }
}

/// `left` is a later Minecraft version than `right`, by their numbers.
pub(crate) fn version_is_later(left: &str, right: &str) -> (r: bool)
    ensures
        r == (sequence_order(version_numbers(left@), version_numbers(right@)) > 0),
{
    let a = numbers_of(&chars_of(left));
    let b = numbers_of(&chars_of(right));
    order_numbers(&a, &b) > 0
}

/// Orders Minecraft versions by their numbers, so `1.20.10` comes after `1.20.2`.
pub fn compare_minecraft_versions(left: &str, right: &str) -> (r: Ordering)
    ensures
        match r {
            Ordering::Less => sequence_order(version_numbers(left@), version_numbers(right@)) < 0,
            Ordering::Equal => sequence_order(version_numbers(left@), version_numbers(right@)) == 0,
            Ordering::Greater => sequence_order(version_numbers(left@), version_numbers(right@)) > 0,
        },
{
    let a = numbers_of(&chars_of(left));
    let b = numbers_of(&chars_of(right));
    let order = order_numbers(&a, &b);
    if order < 0 {
        Ordering::Less
    } else if order == 0 {
        Ordering::Equal
    } else {
        Ordering::Greater
    }
}

/// The first piece that looks like a version, scanning left to right.
pub open spec fn first_version_in(pieces: Seq<Seq<char>>) -> Option<Seq<char>>
    decreases pieces.len(),
{
    if pieces.len() == 0 {
        None
    } else if looks_like_version(pieces[0]) {
        Some(pieces[0])
    } else {
        first_version_in(pieces.drop_first())
    }
}

fn first_version_chars(value: &Vec<char>) -> (r: Option<Vec<char>>)
    ensures
        match first_version_in(split_by(value@, Cut::NonVersion)) {
            Some(v) => r matches Some(found) && found@ == v,
            None => r is None,
        },
{
    let pieces = split_chars(value, Cut::NonVersion);
    let ghost view = views(pieces@);
    let mut i: usize = 0;
    assert(view.skip(0) =~= view);
    while i < pieces.len()
        invariant
            i <= pieces.len(),
            view == views(pieces@),
            view == split_by(value@, Cut::NonVersion),
            first_version_in(view) == first_version_in(view.skip(i as int)),
        decreases pieces.len() - i,
    {
        assert(view.skip(i as int)[0] == pieces@[i as int]@);
        if looks_like_version_chars(&pieces[i]) {
            let found = pieces[i].clone();
            assert(found@ == pieces@[i as int]@);
            return Some(found);
        }
        assert(view.skip(i as int).drop_first() =~= view.skip(i + 1));
        i = i + 1;
    }
    None
}

/// The first run of digits and dots in the text that looks like a Minecraft version.
pub fn first_minecraft_version(value: &str) -> (r: Option<String>)
    ensures
        match first_version_in(split_by(value@, Cut::NonVersion)) {
            Some(v) => r matches Some(found) && found@ == v,
            None => r is None,
        },
{
    match first_version_chars(&chars_of(value)) {
        Some(found) => Some(string_of(found.as_slice())),
        None => None,
    }
}


/// The text without whitespace, every other character lowercased one by one
/// (as `char::to_lowercase` does).
pub open spec fn squashed_lower(s: Seq<char>) -> Seq<char>
    decreases s.len(),
{
    if s.len() == 0 {
        Seq::empty()
    } else {
        let rest = squashed_lower(s.drop_last());
        if is_whitespace(s.last()) {
            rest
        } else {
            rest + unicode_char_lowercase(s.last())
        }
    }
}

fn squash_lower(s: &Vec<char>) -> (r: Vec<char>)
    ensures
        r@ == squashed_lower(s@),
{
    let mut out: Vec<char> = Vec::new();
    let mut i: usize = 0;
    while i < s.len()
        invariant
            i <= s.len(),
            out@ == squashed_lower(s@.take(i as int)),
        decreases s.len() - i,
    {
        let c = s[i];
        proof {
            assert(s@.take(i + 1).drop_last() =~= s@.take(i as int));
        }
        if !is_whitespace_char(c) {
            let mut lower = char_to_lowercase(c);
            out.append(&mut lower);
        }
        i = i + 1;
    }
    assert(s@.take(s.len() as int) =~= s@);
    out
}

/// At most 500 characters of `s` from position `k` on.
pub open spec fn window_from(s: Seq<char>, k: int) -> Seq<char> {
    if k + 500 <= s.len() {
        s.subrange(k, k + 500)
    } else {
        s.subrange(k, s.len() as int)
    }
}

/// The Minecraft version a Forge `mods.toml` asks for: with whitespace gone
/// and letters lowercased, the first version in the 500 characters that start
/// at the `modId="minecraft"` dependency.
pub fn minecraft_versions_from_mods_toml(contents: &str) -> (r: Vec<String>)
    ensures
        !contains_text(squashed_lower(contents@), "modid=\"minecraft\""@) ==> r.len() == 0,
        forall|k: int|
            first_occurrence(squashed_lower(contents@), "modid=\"minecraft\""@, k) ==> match first_version_in(
                split_by(window_from(squashed_lower(contents@), k), Cut::NonVersion),
            ) {
                Some(v) => r.len() == 1 && r@[0]@ == v,
                None => r.len() == 0,
            },
{
    let normalized = squash_lower(&chars_of(contents));
    let needle = chars_of("modid=\"minecraft\"");
    match find_text(&normalized, &needle) {
        None => Vec::new(),
        Some(k) => {
            let end = if normalized.len() - k > 500 {
                k + 500
            } else {
                normalized.len()
            };
            let mut window: Vec<char> = Vec::new();
            let mut i: usize = k;
            while i < end
                invariant
                    k <= i <= end <= normalized.len(),
                    window@ == normalized@.subrange(k as int, i as int),
                decreases end - i,
            {
                window.push(normalized[i]);
                i = i + 1;
            }
            proof {
                assert(window@ =~= window_from(normalized@, k as int));
                assert forall|j: int| first_occurrence(normalized@, needle@, j) implies j == k by {
                    if j < k {
                        assert(normalized@.subrange(j, j + needle@.len()) != needle@);
                    } else if j > k {
                        assert(normalized@.subrange(k as int, k + needle@.len()) != needle@);
                    }
                }
            }
            let mut out: Vec<String> = Vec::new();
            match first_version_chars(&window) {
                Some(found) => {
                    out.push(string_of(found.as_slice()));
                },
                None => {},
            }
            out
        },
    }
}

pub open spec fn is_name_separator(c: char) -> bool {
    c == '-' || c == '_' || c == '.'
}

/// The text with `-`, `_` and `.` removed.
pub open spec fn without_separators(s: Seq<char>) -> Seq<char>
    decreases s.len(),
{
    if s.len() == 0 {
        Seq::empty()
    } else if is_name_separator(s.last()) {
        without_separators(s.drop_last())
    } else {
        without_separators(s.drop_last()).push(s.last())
    }
}

/// The loader a text names, once lowercased and without separators; NeoForge
/// is checked before Forge, whose name it contains.
pub open spec fn loader_named(s: Seq<char>) -> Option<ModLoader> {
    let n = without_separators(unicode_lowercase(s));
    if contains_text(n, "neoforge"@) {
        Some(ModLoader::Neoforge)
    } else if contains_text(n, "fabric"@) {
        Some(ModLoader::Fabric)
    } else if contains_text(n, "quilt"@) {
        Some(ModLoader::Quilt)
    } else if contains_text(n, "forge"@) {
        Some(ModLoader::Forge)
    } else {
        None
    }
}

fn strip_separators(s: &Vec<char>) -> (r: Vec<char>)
    ensures
        r@ == without_separators(s@),
{
    let mut out: Vec<char> = Vec::new();
    let mut i: usize = 0;
    while i < s.len()
        invariant
            i <= s.len(),
            out@ == without_separators(s@.take(i as int)),
        decreases s.len() - i,
    {
        let c = s[i];
        proof {
            assert(s@.take(i + 1).drop_last() =~= s@.take(i as int));
        }
        if !(c == '-' || c == '_' || c == '.') {
            out.push(c);
        }
        i = i + 1;
    }
    assert(s@.take(s.len() as int) =~= s@);
    out
}

/// The mod loader a text names, if any.
pub fn loader_from_text(value: &str) -> (r: Option<ModLoader>)
    ensures
        r == loader_named(value@),
{
    let lower = to_lowercase(value);
    let normalized = strip_separators(&chars_of(lower.as_str()));
    if contains(&normalized, &chars_of("neoforge")) {
        Some(ModLoader::Neoforge)
    } else if contains(&normalized, &chars_of("fabric")) {
        Some(ModLoader::Fabric)
    } else if contains(&normalized, &chars_of("quilt")) {
        Some(ModLoader::Quilt)
    } else if contains(&normalized, &chars_of("forge")) {
        Some(ModLoader::Forge)
    } else {
        None
    }
}

/// The file name without a `.jar` or `.JAR` ending.
pub open spec fn jar_stem(s: Seq<char>) -> Seq<char> {
    if has_suffix(s, ".jar"@) || has_suffix(s, ".JAR"@) {
        s.take(s.len() - 4)
    } else {
        s
    }
}

pub open spec fn spaced(c: char) -> char {
    if is_name_separator(c) {
        ' '
    } else {
        c
    }
}

/// A readable name for a local file: the stem with separators turned into
/// single spaces, or the file name itself when nothing is left.
pub open spec fn display_name(filename: Seq<char>) -> Seq<char> {
    let name = squeeze_whitespace(jar_stem(filename).map_values(|c: char| spaced(c)));
    if name.len() == 0 {
        filename
    } else {
        name
    }
}

/// The name shown for a mod file that no catalog recognized.
pub fn display_name_from_filename(filename: &str) -> (r: String)
    ensures
        r@ == display_name(filename@),
{
    let chars = chars_of(filename);
    let lower_suffix = chars_of(".jar");
    let upper_suffix = chars_of(".JAR");
    proof {
        reveal_strlit(".jar");
        reveal_strlit(".JAR");
    }
    let stem_len = if ends_with(&chars, &lower_suffix) || ends_with(&chars, &upper_suffix) {
        chars.len() - 4
    } else {
        chars.len()
    };
    let mut spaced_chars: Vec<char> = Vec::new();
    let mut i: usize = 0;
    while i < stem_len
        invariant
            i <= stem_len <= chars.len(),
            spaced_chars@ == chars@.take(i as int).map_values(|c: char| spaced(c)),
        decreases stem_len - i,
    {
        let c = chars[i];
        if c == '-' || c == '_' || c == '.' {
            spaced_chars.push(' ');
        } else {
            spaced_chars.push(c);
        }
        assert(spaced_chars@ =~= chars@.take(i + 1).map_values(|c: char| spaced(c)));
        i = i + 1;
    }
    assert(chars@.take(stem_len as int) =~= jar_stem(filename@));
    let name = squeeze_whitespace_chars(&spaced_chars);
    if name.len() == 0 {
        String::from_str(filename)
    } else {
        string_of(name.as_slice())
    }
}


/// Inserts a text before the first element greater than it.
pub open spec fn insert_text(s: Seq<Seq<char>>, x: Seq<char>) -> Seq<Seq<char>>
    decreases s.len(),
{
    if s.len() == 0 {
        seq![x]
    } else if text_lt(x, s[0]) {
        seq![x] + s
    } else {
        seq![s[0]] + insert_text(s.drop_first(), x)
    }
}

/// The texts in ascending order, as `sort` on strings leaves them.
pub open spec fn sort_texts(s: Seq<Seq<char>>) -> Seq<Seq<char>>
    decreases s.len(),
{
    if s.len() == 0 {
        Seq::empty()
    } else {
        insert_text(sort_texts(s.drop_last()), s.last())
    }
}

/// Consecutive repeats dropped, as `Vec::dedup` does.
pub open spec fn dedup_texts(s: Seq<Seq<char>>) -> Seq<Seq<char>>
    decreases s.len(),
{
    if s.len() < 2 {
        s
    } else if s.last() == s[s.len() - 2] {
        dedup_texts(s.drop_last())
    } else {
        dedup_texts(s.drop_last()).push(s.last())
    }
}

/// The warnings shown: sorted, without repeats, and past the fortieth one
/// summed up in a single line.
pub open spec fn compacted(warnings: Seq<Seq<char>>) -> Seq<Seq<char>> {
    let unique = dedup_texts(sort_texts(warnings));
    if unique.len() > 40 {
        unique.take(40).push(
            "Outros "@ + decimal((unique.len() - 40) as nat) + " avisos semelhantes foram resumidos."@,
        )
    } else {
        unique
    }
}

proof fn lemma_insert_text_at(s: Seq<Seq<char>>, x: Seq<char>, p: int)
    requires
        0 <= p <= s.len(),
        forall|j: int| 0 <= j < p ==> !text_lt(x, #[trigger] s[j]),
        p < s.len() ==> text_lt(x, s[p]),
    ensures
        insert_text(s, x) == s.take(p) + seq![x] + s.skip(p),
    decreases s.len(),
{
    if s.len() == 0 {
        assert(s.take(p) + seq![x] + s.skip(p) =~= seq![x]);
    } else if p == 0 {
        assert(s.take(p) + seq![x] + s.skip(p) =~= seq![x] + s);
    } else {
        assert(!text_lt(x, s[0]));
        let t = s.drop_first();
        assert forall|j: int| 0 <= j < p - 1 implies !text_lt(x, #[trigger] t[j]) by {
            assert(t[j] == s[j + 1]);
        }
        lemma_insert_text_at(t, x, p - 1);
        assert(seq![s[0]] + (t.take(p - 1) + seq![x] + t.skip(p - 1)) =~= s.take(p) + seq![x] + s.skip(p));
    }
}

fn string_less(a: &String, b: &String) -> (r: bool)
    ensures
        r == text_lt(a@, b@),
{
    text_less(&chars_of(a.as_str()), &chars_of(b.as_str()))
}

/// Sorts the warnings, drops repeats and sums up all past the fortieth.
pub fn compact_warnings(warnings: &mut Vec<String>)
    ensures
        texts(final(warnings)@) == compacted(texts(old(warnings)@)),
{
    let ghost original = texts(warnings@);
    let mut sorted: Vec<String> = Vec::new();
    let mut i: usize = 0;
    while i < warnings.len()
        invariant
            i <= warnings.len(),
            original == texts(warnings@),
            texts(sorted@) == sort_texts(original.take(i as int)),
        decreases warnings.len() - i,
    {
        let item = warnings[i].clone();
        let mut p: usize = 0;
        while p < sorted.len() && !string_less(&item, &sorted[p])
            invariant
                p <= sorted.len(),
                forall|j: int| 0 <= j < p ==> !text_lt(item@, #[trigger] texts(sorted@)[j]),
            decreases sorted.len() - p,
        {
            assert(texts(sorted@)[p as int] == sorted@[p as int]@);
            p = p + 1;
        }
        proof {
            if p < sorted.len() {
                assert(texts(sorted@)[p as int] == sorted@[p as int]@);
            }
            lemma_insert_text_at(texts(sorted@), item@, p as int);
            assert(original.take(i + 1).drop_last() =~= original.take(i as int));
            assert(original.take(i + 1).last() == item@);
        }
        let ghost before = texts(sorted@);
        sorted.insert(p, item);
        assert(texts(sorted@) =~= before.take(p as int) + seq![item@] + before.skip(p as int));
        i = i + 1;
    }
    assert(original.take(warnings.len() as int) =~= original);
    let ghost ordered = texts(sorted@);
    let mut unique: Vec<String> = Vec::new();
    let mut k: usize = 0;
    while k < sorted.len()
        invariant
            k <= sorted.len(),
            ordered == texts(sorted@),
            texts(unique@) == dedup_texts(ordered.take(k as int)),
        decreases sorted.len() - k,
    {
        proof {
            assert(ordered.take(k + 1).drop_last() =~= ordered.take(k as int));
            assert(ordered.take(k + 1).last() == sorted@[k as int]@);
            if k >= 1 {
                assert(ordered.take(k + 1)[k - 1] == sorted@[k - 1]@);
            }
        }
        if k == 0 || !str_equal(sorted[k].as_str(), sorted[k - 1].as_str()) {
            let ghost before = texts(unique@);
            unique.push(sorted[k].clone());
            assert(texts(unique@) =~= before.push(sorted@[k as int]@));
        }
        k = k + 1;
    }
    assert(ordered.take(sorted.len() as int) =~= ordered);
    let ghost deduped = texts(unique@);
    if unique.len() > 40 {
        let hidden = unique.len() - 40;
        unique.truncate(40);
        let count = decimal_string(hidden as u64);
        let head = join2("Outros ", count.as_str());
        let message = join2(head.as_str(), " avisos semelhantes foram resumidos.");
        let ghost kept = texts(unique@);
        unique.push(message);
        assert(kept =~= deduped.take(40));
        assert(texts(unique@) =~= kept.push(message@));
    }
    *warnings = unique;
}


/// What is known so far of an instance's target, and which files said so.
#[derive(Debug)]
pub struct PartialTarget {
    pub minecraft_version: Option<String>,
    pub loader: Option<ModLoader>,
    pub sources: Vec<String>,
}

pub open spec fn opt_text(o: Option<String>) -> Option<Seq<char>> {
    match o {
        Some(s) => Some(s@),
        None => None,
    }
}

/// Fills what is still missing of the target from another source, and
/// records the source once when it contributed.
pub fn merge_target(target: &mut PartialTarget, candidate: (Option<String>, Option<ModLoader>), source: &str)
    ensures
        final(target).minecraft_version == if old(target).minecraft_version is None && candidate.0 is Some {
            candidate.0
        } else {
            old(target).minecraft_version
        },
        final(target).loader == if old(target).loader is None && candidate.1 is Some {
            candidate.1
        } else {
            old(target).loader
        },
        texts(final(target).sources@) == if ((old(target).minecraft_version is None && candidate.0 is Some)
            || (old(target).loader is None && candidate.1 is Some)) && !texts(old(target).sources@).contains(
            source@,
        ) {
            texts(old(target).sources@).push(source@)
        } else {
            texts(old(target).sources@)
        },
{
    let (version, loader) = candidate;
    let mut used = false;
    if target.minecraft_version.is_none() && version.is_some() {
        target.minecraft_version = version;
        used = true;
    }
    if target.loader.is_none() && loader.is_some() {
        target.loader = loader;
        used = true;
    }
    if used {
        let ghost before = texts(target.sources@);
        let mut present = false;
        let mut i: usize = 0;
        while i < target.sources.len()
            invariant
                i <= target.sources.len(),
                before == texts(target.sources@),
                present == exists|j: int| 0 <= j < i && #[trigger] before[j] == source@,
            decreases target.sources.len() - i,
        {
            if str_equal(target.sources[i].as_str(), source) {
                present = true;
            }
            assert(before[i as int] == target.sources@[i as int]@);
            i = i + 1;
        }
        if !present {
            target.sources.push(String::from_str(source));
            assert(texts(target.sources@) =~= before.push(source@));
        } else {
            proof {
                let j = choose|j: int| 0 <= j < before.len() && #[trigger] before[j] == source@;
                assert(before.contains(source@));
            }
        }
    }
}

/// Position of the first `c` in `s`, or -1.
pub open spec fn index_of_char(s: Seq<char>, c: char) -> int
    decreases s.len(),
{
    if s.len() == 0 {
        -1
    } else {
        let r = index_of_char(s.drop_last(), c);
        if r >= 0 {
            r
        } else if s.last() == c {
            s.len() - 1
        } else {
            -1
        }
    }
}

/// `str::lines`: the text cut at line feeds, without a last empty piece, and
/// a carriage return dropped before each line feed.
pub open spec fn text_lines(s: Seq<char>) -> Seq<Seq<char>> {
    let pieces = split_by(s, Cut::At('\n'));
    let kept = if pieces.last().len() == 0 {
        pieces.drop_last()
    } else {
        pieces
    };
    Seq::new(
        kept.len(),
        |i: int|
            if i < pieces.len() - 1 && kept[i].len() > 0 && kept[i].last() == '\r' {
                kept[i].drop_last()
            } else {
                kept[i]
            },
    )
}

/// The key of a `key=value` line, trimmed and lowercased; the value trimmed.
pub open spec fn cfg_entry(line: Seq<char>) -> Option<(Seq<char>, Seq<char>)> {
    let p = index_of_char(line, '=');
    if p < 0 {
        None
    } else {
        Some((unicode_lowercase(trim(line.take(p))), trim(line.skip(p + 1))))
    }
}

pub open spec fn cfg_line_version(line: Seq<char>) -> Option<Seq<char>> {
    match cfg_entry(line) {
        Some((key, value)) => if (key == "intendedversion"@ || key == "minecraftversion"@)
            && looks_like_version(value) {
            Some(value)
        } else {
            None
        },
        None => None,
    }
}

pub open spec fn cfg_line_loader(line: Seq<char>) -> Option<ModLoader> {
    match cfg_entry(line) {
        Some((key, _)) => if contains_text(key, "neoforge"@) {
            Some(ModLoader::Neoforge)
        } else if contains_text(key, "fabric"@) {
            Some(ModLoader::Fabric)
        } else if contains_text(key, "quilt"@) {
            Some(ModLoader::Quilt)
        } else if contains_text(key, "forge"@) {
            Some(ModLoader::Forge)
        } else {
            None
        },
        None => None,
    }
}

/// What an `instance.cfg` says: the last version line and the last line
/// whose key names a loader win.
pub open spec fn cfg_target(lines: Seq<Seq<char>>) -> (Option<Seq<char>>, Option<ModLoader>)
    decreases lines.len(),
{
    if lines.len() == 0 {
        (None, None)
    } else {
        let (version, loader) = cfg_target(lines.drop_last());
        (
            match cfg_line_version(lines.last()) {
                Some(v) => Some(v),
                None => version,
            },
            match cfg_line_loader(lines.last()) {
                Some(l) => Some(l),
                None => loader,
            },
        )
    }
}

fn index_of_char_exec(s: &Vec<char>, c: char) -> (r: Option<usize>)
    ensures
        match r {
            Some(p) => p < s.len() && index_of_char(s@, c) == p,
            None => index_of_char(s@, c) == -1,
        },
{
    let mut i: usize = 0;
    while i < s.len()
        invariant
            i <= s.len(),
            index_of_char(s@.take(i as int), c) == -1,
        decreases s.len() - i,
    {
        proof {
            assert(s@.take(i + 1).drop_last() =~= s@.take(i as int));
        }
        if s[i] == c {
            proof {
                lemma_index_of_char_prefix(s@, c, i + 1);
            }
            return Some(i);
        }
        i = i + 1;
    }
    assert(s@.take(s.len() as int) =~= s@);
    None
}

proof fn lemma_index_of_char_prefix(s: Seq<char>, c: char, k: int)
    requires
        0 <= k <= s.len(),
        index_of_char(s.take(k), c) >= 0,
    ensures
        index_of_char(s, c) == index_of_char(s.take(k), c),
    decreases s.len() - k,
{
    if k < s.len() {
        assert(s.take(k + 1).drop_last() =~= s.take(k));
        lemma_index_of_char_prefix(s, c, k + 1);
    } else {
        assert(s.take(k) =~= s);
    }
}

fn cfg_line(line: &Vec<char>) -> (r: (Option<String>, Option<ModLoader>))
    ensures
        opt_text(r.0) == cfg_line_version(line@),
        r.1 == cfg_line_loader(line@),
{
    match index_of_char_exec(line, '=') {
        None => (None, None),
        Some(p) => {
            let mut key_chars: Vec<char> = Vec::new();
            let mut value_chars: Vec<char> = Vec::new();
            let mut i: usize = 0;
            while i < line.len()
                invariant
                    p < line.len(),
                    i <= line.len(),
                    key_chars@ == line@.take(if i < p { i as int } else { p as int }),
                    value_chars@ == if i <= p { Seq::<char>::empty() } else { line@.subrange(p + 1, i as int) },
                decreases line.len() - i,
            {
                if i < p {
                    key_chars.push(line[i]);
                } else if i > p {
                    value_chars.push(line[i]);
                }
                proof {
                    assert(key_chars@ =~= line@.take(if i + 1 < p { i + 1 } else { p as int }));
                    assert(value_chars@ =~= if i + 1 <= p { Seq::<char>::empty() } else { line@.subrange(p + 1, i + 1) });
                }
                i = i + 1;
            }
            assert(value_chars@ =~= line@.skip(p + 1));
            let key_text = string_of(key_chars.as_slice());
            let key_trimmed = trimmed(key_text.as_str());
            let key = to_lowercase(key_trimmed.as_str());
            let value_text = string_of(value_chars.as_slice());
            let value = trimmed(value_text.as_str());
            let value_view = chars_of(value.as_str());
            let version = if (str_equal(key.as_str(), "intendedversion") || str_equal(key.as_str(), "minecraftversion"))
                && looks_like_version_chars(&value_view) {
                Some(value)
            } else {
                None
            };
            let key_view = chars_of(key.as_str());
            let loader = if contains(&key_view, &chars_of("neoforge")) {
                Some(ModLoader::Neoforge)
            } else if contains(&key_view, &chars_of("fabric")) {
                Some(ModLoader::Fabric)
            } else if contains(&key_view, &chars_of("quilt")) {
                Some(ModLoader::Quilt)
            } else if contains(&key_view, &chars_of("forge")) {
                Some(ModLoader::Forge)
            } else {
                None
            };
            (version, loader)
        },
    }
}

/// The Minecraft version and loader an `instance.cfg` of Prism or MultiMC names.
pub fn target_from_instance_cfg(contents: &str) -> (r: (Option<String>, Option<ModLoader>))
    ensures
        (opt_text(r.0), r.1) == cfg_target(text_lines(contents@)),
{
    let chars = chars_of(contents);
    let pieces = split_chars(&chars, Cut::At('\n'));
    let ghost view = views(pieces@);
    proof {
        lemma_split_nonempty(chars@, Cut::At('\n'));
    }
    let count = if pieces[pieces.len() - 1].len() == 0 {
        pieces.len() - 1
    } else {
        pieces.len()
    };
    let ghost lines = text_lines(contents@);
    assert(view[view.len() - 1] == pieces@[pieces.len() - 1]@);
    assert(lines.len() == count);
    let mut version: Option<String> = None;
    let mut loader: Option<ModLoader> = None;
    let mut i: usize = 0;
    while i < count
        invariant
            i <= count <= pieces.len(),
            view == views(pieces@),
            view == split_by(chars@, Cut::At('\n')),
            chars@ == contents@,
            lines == text_lines(contents@),
            lines.len() == count,
            (opt_text(version), loader) == cfg_target(lines.take(i as int)),
        decreases count - i,
    {
        let piece = &pieces[i];
        assert(view[i as int] == piece@);
        let line: Vec<char> = if i + 1 < pieces.len() && piece.len() > 0 && piece[piece.len() - 1] == '\r' {
            let mut cut: Vec<char> = Vec::new();
            let mut j: usize = 0;
            while j < piece.len() - 1
                invariant
                    piece.len() > 0,
                    j <= piece.len() - 1,
                    cut@ == piece@.take(j as int),
                decreases piece.len() - 1 - j,
            {
                cut.push(piece[j]);
                assert(cut@ =~= piece@.take(j + 1));
                j = j + 1;
            }
            assert(cut@ =~= piece@.drop_last());
            cut
        } else {
            piece.clone()
        };
        assert(line@ == lines[i as int]);
        let (v, l) = cfg_line(&line);
        proof {
            assert(lines.take(i + 1).drop_last() =~= lines.take(i as int));
            assert(lines.take(i + 1).last() == line@);
        }
        if v.is_some() {
            version = v;
        }
        if l.is_some() {
            loader = l;
        }
        i = i + 1;
    }
    assert(lines.take(count as int) =~= lines);
    (version, loader)
}


/// What a mod file's own metadata says it runs on.
#[derive(Debug)]
pub struct JarTargetHint {
    pub minecraft_versions: Vec<String>,
    pub loader: Option<ModLoader>,
}

/// A mod file together with what the catalogs and its metadata said of it.
#[derive(Debug)]
pub struct IdentifiedJar {
    pub item: InstalledMod,
    pub versions: Vec<ProjectVersion>,
    pub aliases: Vec<ProjectRef>,
    pub warnings: Vec<String>,
    pub target_hint: JarTargetHint,
}

/// The configured value, when there is one, admits only itself.
pub open spec fn admits_version(configured: Option<Seq<char>>, m: Seq<char>) -> bool {
    match configured {
        Some(expected) => expected == m,
        None => true,
    }
}

pub open spec fn admits_loader(configured: Option<ModLoader>, l: ModLoader) -> bool {
    match configured {
        Some(expected) => expected == l,
        None => true,
    }
}

pub open spec fn count_loader(loaders: Seq<ModLoader>, l: ModLoader) -> int
    decreases loaders.len(),
{
    if loaders.len() == 0 {
        0
    } else {
        count_loader(loaders.drop_last(), l) + if loaders.last() == l {
            1int
        } else {
            0int
        }
    }
}

/// `w` for each entry of the list equal to `m`.
pub open spec fn matches_weight(list: Seq<String>, m: Seq<char>, w: int) -> int
    decreases list.len(),
{
    if list.len() == 0 {
        0
    } else {
        matches_weight(list.drop_last(), m, w) + if list.last()@ == m {
            w
        } else {
            0
        }
    }
}

/// Votes of catalog versions for the pair (version `m`, loader `l`): one per
/// occurrence of `m` and of `l` in the same catalog version.
pub open spec fn versions_pair(vs: Seq<ProjectVersion>, cv: Option<Seq<char>>, cl: Option<ModLoader>, m: Seq<char>, l: ModLoader) -> int
    decreases vs.len(),
{
    if vs.len() == 0 {
        0
    } else {
        versions_pair(vs.drop_last(), cv, cl, m, l) + if looks_like_version(m) && admits_version(cv, m)
            && admits_loader(cl, l) {
            matches_weight(vs.last().minecraft_versions@, m, count_loader(vs.last().loaders@, l))
        } else {
            0
        }
    }
}

/// Votes of a file's own metadata for the pair: two per occurrence of `m`.
pub open spec fn hint_pair(hint: JarTargetHint, cv: Option<Seq<char>>, cl: Option<ModLoader>, m: Seq<char>, l: ModLoader) -> int {
    match hint.loader {
        Some(hl) => if hl == l && admits_loader(cl, l) && admits_version(cv, m) {
            matches_weight(hint.minecraft_versions@, m, 2)
        } else {
            0
        },
        None => 0,
    }
}

pub open spec fn pair_score(items: Seq<IdentifiedJar>, cv: Option<Seq<char>>, cl: Option<ModLoader>, m: Seq<char>, l: ModLoader) -> int
    decreases items.len(),
{
    if items.len() == 0 {
        0
    } else {
        pair_score(items.drop_last(), cv, cl, m, l) + versions_pair(items.last().versions@, cv, cl, m, l)
            + hint_pair(items.last().target_hint, cv, cl, m, l)
    }
}

pub open spec fn versions_version(vs: Seq<ProjectVersion>, cv: Option<Seq<char>>, m: Seq<char>) -> int
    decreases vs.len(),
{
    if vs.len() == 0 {
        0
    } else {
        versions_version(vs.drop_last(), cv, m) + if looks_like_version(m) && admits_version(cv, m) {
            matches_weight(vs.last().minecraft_versions@, m, 1)
        } else {
            0
        }
    }
}

pub open spec fn hint_version(hint: JarTargetHint, cv: Option<Seq<char>>, cl: Option<ModLoader>, m: Seq<char>) -> int {
    match hint.loader {
        Some(hl) => if admits_loader(cl, hl) && admits_version(cv, m) {
            matches_weight(hint.minecraft_versions@, m, 2)
        } else {
            0
        },
        None => 0,
    }
}

/// Votes for a Minecraft version alone.
pub open spec fn version_score(items: Seq<IdentifiedJar>, cv: Option<Seq<char>>, cl: Option<ModLoader>, m: Seq<char>) -> int
    decreases items.len(),
{
    if items.len() == 0 {
        0
    } else {
        version_score(items.drop_last(), cv, cl, m) + versions_version(items.last().versions@, cv, m)
            + hint_version(items.last().target_hint, cv, cl, m)
    }
}

pub open spec fn versions_loader(vs: Seq<ProjectVersion>, cl: Option<ModLoader>, l: ModLoader) -> int
    decreases vs.len(),
{
    if vs.len() == 0 {
        0
    } else {
        versions_loader(vs.drop_last(), cl, l) + if admits_loader(cl, l) {
            count_loader(vs.last().loaders@, l)
        } else {
            0
        }
    }
}

/// Votes for a loader alone.
pub open spec fn loader_score(items: Seq<IdentifiedJar>, cl: Option<ModLoader>, l: ModLoader) -> int
    decreases items.len(),
{
    if items.len() == 0 {
        0
    } else {
        loader_score(items.drop_last(), cl, l) + versions_loader(items.last().versions@, cl, l) + if items.last().target_hint.loader
            == Some(l) && admits_loader(cl, l) {
            2int
        } else {
            0int
        }
    }
}

/// A vote count as kept in a `u64` that stops at its maximum.
pub open spec fn capped(x: int) -> int {
    if x > u64::MAX {
        u64::MAX as int
    } else {
        x
    }
}

pub open spec fn version_order(a: Seq<char>, b: Seq<char>) -> int {
    sequence_order(version_numbers(a), version_numbers(b))
}

/// Pair `a` wins over pair `b`: more votes, or as many and a later version.
pub open spec fn pair_beats(items: Seq<IdentifiedJar>, cv: Option<Seq<char>>, cl: Option<ModLoader>, a: (Seq<char>, ModLoader), b: (Seq<char>, ModLoader)) -> bool {
    let sa = capped(pair_score(items, cv, cl, a.0, a.1));
    let sb = capped(pair_score(items, cv, cl, b.0, b.1));
    sa > sb || (sa == sb && version_order(a.0, b.0) > 0)
}

/// The pair with the most votes (the latest version among equals), or none
/// when nothing voted. Among pairs that tie on both, any may be chosen.
pub open spec fn best_pair(items: Seq<IdentifiedJar>, cv: Option<Seq<char>>, cl: Option<ModLoader>, p: Option<(Seq<char>, ModLoader)>) -> bool {
    match p {
        None => forall|m: Seq<char>, l: ModLoader| pair_score(items, cv, cl, m, l) == 0,
        Some(b) => pair_score(items, cv, cl, b.0, b.1) > 0 && forall|m: Seq<char>, l: ModLoader|
            pair_score(items, cv, cl, m, l) > 0 ==> !pair_beats(items, cv, cl, (m, l), b),
    }
}

/// Version `m` does not win over version `b`.
pub open spec fn version_not_beaten(items: Seq<IdentifiedJar>, cv: Option<Seq<char>>, cl: Option<ModLoader>, m: Seq<char>, b: Seq<char>) -> bool {
    let sm = capped(version_score(items, cv, cl, m));
    let sb = capped(version_score(items, cv, cl, b));
    sm < sb || (sm == sb && version_order(m, b) <= 0)
}

/// The version with the most votes (the latest among equals), or none.
pub open spec fn best_version(items: Seq<IdentifiedJar>, cv: Option<Seq<char>>, cl: Option<ModLoader>, v: Option<Seq<char>>) -> bool {
    match v {
        None => forall|m: Seq<char>| version_score(items, cv, cl, m) == 0,
        Some(b) => version_score(items, cv, cl, b) > 0 && forall|m: Seq<char>|
            version_score(items, cv, cl, m) > 0 ==> #[trigger] version_not_beaten(items, cv, cl, m, b),
    }
}

/// The loader with the most votes (any among equals), or none.
pub open spec fn best_loader(items: Seq<IdentifiedJar>, cl: Option<ModLoader>, v: Option<ModLoader>) -> bool {
    match v {
        None => forall|l: ModLoader| loader_score(items, cl, l) == 0,
        Some(b) => loader_score(items, cl, b) > 0 && forall|l: ModLoader|
            capped(loader_score(items, cl, l)) <= capped(loader_score(items, cl, b)),
    }
}

proof fn lemma_order_antisymmetric(a: Seq<int>, b: Seq<int>)
    ensures
        sequence_order(a, b) == -sequence_order(b, a),
    decreases a.len(),
{
    if a.len() > 0 && b.len() > 0 && a[0] == b[0] {
        lemma_order_antisymmetric(a.drop_first(), b.drop_first());
    }
}

proof fn lemma_order_transitive(a: Seq<int>, b: Seq<int>, c: Seq<int>)
    requires
        sequence_order(a, b) <= 0,
        sequence_order(b, c) <= 0,
    ensures
        sequence_order(a, c) <= 0,
    decreases a.len(),
{
    if a.len() > 0 && b.len() > 0 && c.len() > 0 && a[0] == b[0] && b[0] == c[0] {
        lemma_order_transitive(a.drop_first(), b.drop_first(), c.drop_first());
    }
}

fn count_loader_exec(loaders: &Vec<ModLoader>, l: ModLoader) -> (r: u64)
    ensures
        r == count_loader(loaders@, l),
{
    let mut n: u64 = 0;
    let mut i: usize = 0;
    while i < loaders.len()
        invariant
            i <= loaders.len(),
            n == count_loader(loaders@.take(i as int), l),
            n <= i,
        decreases loaders.len() - i,
    {
        proof {
            assert(loaders@.take(i + 1).drop_last() =~= loaders@.take(i as int));
        }
        if loaders[i] == l {
            n = n + 1;
        }
        i = i + 1;
    }
    assert(loaders@.take(loaders.len() as int) =~= loaders@);
    n
}

/// How many entries of the list are `m`.
pub open spec fn times_listed(list: Seq<String>, m: Seq<char>) -> nat
    decreases list.len(),
{
    if list.len() == 0 {
        0
    } else {
        times_listed(list.drop_last(), m) + if list.last()@ == m {
            1nat
        } else {
            0nat
        }
    }
}

proof fn lemma_weight_is_multiple(list: Seq<String>, m: Seq<char>, w: int)
    ensures
        matches_weight(list, m, w) == w * times_listed(list, m),
    decreases list.len(),
{
    if list.len() == 0 {
        assert(w * 0 == 0) by (nonlinear_arith);
    } else {
        lemma_weight_is_multiple(list.drop_last(), m, w);
        let k = times_listed(list.drop_last(), m);
        if list.last()@ == m {
            assert(w * k + w == w * (k + 1)) by (nonlinear_arith);
        }
    }
}

/// A file that no catalog knows and whose own metadata names the loader `l`
/// adds two votes for each time that metadata lists `m`: to the pair (`m`,
/// `l`) and to the version `m`; and it adds two votes to the loader `l`.
pub proof fn law_jar_metadata_votes_twice(
    items: Seq<IdentifiedJar>,
    jar: IdentifiedJar,
    cv: Option<Seq<char>>,
    cl: Option<ModLoader>,
    m: Seq<char>,
    l: ModLoader,
)
    requires
        jar.versions@.len() == 0,
        jar.target_hint.loader == Some(l),
        admits_version(cv, m),
        admits_loader(cl, l),
    ensures
        pair_score(items.push(jar), cv, cl, m, l) == pair_score(items, cv, cl, m, l) + 2 * times_listed(
            jar.target_hint.minecraft_versions@,
            m,
        ),
        version_score(items.push(jar), cv, cl, m) == version_score(items, cv, cl, m) + 2 * times_listed(
            jar.target_hint.minecraft_versions@,
            m,
        ),
        loader_score(items.push(jar), cl, l) == loader_score(items, cl, l) + 2,
{
    let all = items.push(jar);
    assert(all.drop_last() =~= items);
    assert(all.last() == jar);
    lemma_weight_is_multiple(jar.target_hint.minecraft_versions@, m, 2);
    assert(versions_pair(jar.versions@, cv, cl, m, l) == 0);
    assert(versions_version(jar.versions@, cv, m) == 0);
    assert(versions_loader(jar.versions@, cl, l) == 0);
}

/// A file that a catalog knows by one version, and whose own metadata names no
/// loader, adds one vote to the pair (`m`, `l`) for each time that version
/// lists `m` and `l` together, one to the version `m` for each time it lists
/// `m`, and one to the loader `l` for each time it lists `l`.
pub proof fn law_catalog_version_votes_once(
    items: Seq<IdentifiedJar>,
    jar: IdentifiedJar,
    cv: Option<Seq<char>>,
    cl: Option<ModLoader>,
    m: Seq<char>,
    l: ModLoader,
)
    requires
        jar.versions@.len() == 1,
        jar.target_hint.loader is None,
        looks_like_version(m),
        admits_version(cv, m),
        admits_loader(cl, l),
    ensures
        pair_score(items.push(jar), cv, cl, m, l) == pair_score(items, cv, cl, m, l) + times_listed(
            jar.versions@[0].minecraft_versions@,
            m,
        ) * count_loader(jar.versions@[0].loaders@, l),
        version_score(items.push(jar), cv, cl, m) == version_score(items, cv, cl, m) + times_listed(
            jar.versions@[0].minecraft_versions@,
            m,
        ),
        loader_score(items.push(jar), cl, l) == loader_score(items, cl, l) + count_loader(
            jar.versions@[0].loaders@,
            l,
        ),
{
    let all = items.push(jar);
    let v = jar.versions@[0];
    assert(all.drop_last() =~= items);
    assert(all.last() == jar);
    assert(jar.versions@.drop_last() =~= Seq::<ProjectVersion>::empty());
    assert(jar.versions@.last() == v);
    assert(versions_pair(jar.versions@.drop_last(), cv, cl, m, l) == 0);
    assert(versions_version(jar.versions@.drop_last(), cv, m) == 0);
    assert(versions_loader(jar.versions@.drop_last(), cl, l) == 0);
    lemma_weight_is_multiple(v.minecraft_versions@, m, count_loader(v.loaders@, l));
    lemma_weight_is_multiple(v.minecraft_versions@, m, 1);
    assert(count_loader(v.loaders@, l) * times_listed(v.minecraft_versions@, m) == times_listed(
        v.minecraft_versions@,
        m,
    ) * count_loader(v.loaders@, l)) by (nonlinear_arith);
    assert(versions_pair(jar.versions@, cv, cl, m, l) == times_listed(v.minecraft_versions@, m) * count_loader(
        v.loaders@,
        l,
    ));
    assert(versions_version(jar.versions@, cv, m) == times_listed(v.minecraft_versions@, m));
    assert(versions_loader(jar.versions@, cl, l) == count_loader(v.loaders@, l));
}

proof fn lemma_weight_nonneg(list: Seq<String>, m: Seq<char>, w: int)
    requires
        w >= 0,
    ensures
        matches_weight(list, m, w) >= 0,
    decreases list.len(),
{
    if list.len() > 0 {
        lemma_weight_nonneg(list.drop_last(), m, w);
    }
}

/// Adds `w` to a capped count once per entry equal to `m`.
fn add_matches(acc: u64, list: &Vec<String>, m: &String, w: u64) -> (r: u64)
    ensures
        r == capped(acc + matches_weight(list@, m@, w as int)),
{
    let mut n = acc;
    let mut i: usize = 0;
    while i < list.len()
        invariant
            i <= list.len(),
            n == capped(acc + matches_weight(list@.take(i as int), m@, w as int)),
            matches_weight(list@.take(i as int), m@, w as int) >= 0,
        decreases list.len() - i,
    {
        proof {
            assert(list@.take(i + 1).drop_last() =~= list@.take(i as int));
        }
        if list[i] == *m {
            n = n.saturating_add(w);
        }
        i = i + 1;
    }
    assert(list@.take(list.len() as int) =~= list@);
    n
}

fn admits_version_exec(configured: &Option<String>, m: &String) -> (r: bool)
    ensures
        r == admits_version(opt_text(*configured), m@),
{
    match configured {
        Some(expected) => *expected == *m,
        None => true,
    }
}

fn admits_loader_exec(configured: Option<ModLoader>, l: ModLoader) -> (r: bool)
    ensures
        r == admits_loader(configured, l),
{
    match configured {
        Some(expected) => expected == l,
        None => true,
    }
}

proof fn lemma_pair_parts_nonneg(items: Seq<IdentifiedJar>, cv: Option<Seq<char>>, cl: Option<ModLoader>, m: Seq<char>, l: ModLoader)
    ensures
        pair_score(items, cv, cl, m, l) >= 0,
        version_score(items, cv, cl, m) >= 0,
        loader_score(items, cl, l) >= 0,
    decreases items.len(),
{
    if items.len() > 0 {
        lemma_pair_parts_nonneg(items.drop_last(), cv, cl, m, l);
        lemma_versions_nonneg(items.last().versions@, cv, cl, m, l);
        lemma_weight_nonneg(items.last().target_hint.minecraft_versions@, m, 2);
    }
}

proof fn lemma_count_loader_nonneg(loaders: Seq<ModLoader>, l: ModLoader)
    ensures
        count_loader(loaders, l) >= 0,
    decreases loaders.len(),
{
    if loaders.len() > 0 {
        lemma_count_loader_nonneg(loaders.drop_last(), l);
    }
}

proof fn lemma_versions_nonneg(vs: Seq<ProjectVersion>, cv: Option<Seq<char>>, cl: Option<ModLoader>, m: Seq<char>, l: ModLoader)
    ensures
        versions_pair(vs, cv, cl, m, l) >= 0,
        versions_version(vs, cv, m) >= 0,
        versions_loader(vs, cl, l) >= 0,
    decreases vs.len(),
{
    if vs.len() > 0 {
        lemma_versions_nonneg(vs.drop_last(), cv, cl, m, l);
        lemma_count_loader_nonneg(vs.last().loaders@, l);
        lemma_weight_nonneg(vs.last().minecraft_versions@, m, count_loader(vs.last().loaders@, l));
        lemma_weight_nonneg(vs.last().minecraft_versions@, m, 1);
    }
}

/// The capped vote count of a pair.
fn pair_count(items: &Vec<IdentifiedJar>, cv: &Option<String>, cl: Option<ModLoader>, m: &String, l: ModLoader) -> (r: u64)
    ensures
        r == capped(pair_score(items@, opt_text(*cv), cl, m@, l)),
{
    let ghost cvv = opt_text(*cv);
    let shape = looks_like_minecraft_version(m.as_str());
    let version_ok = admits_version_exec(cv, m);
    let loader_ok = admits_loader_exec(cl, l);
    let mut n: u64 = 0;
    let mut i: usize = 0;
    while i < items.len()
        invariant
            i <= items.len(),
            cvv == opt_text(*cv),
            shape == looks_like_version(m@),
            version_ok == admits_version(cvv, m@),
            loader_ok == admits_loader(cl, l),
            n == capped(pair_score(items@.take(i as int), cvv, cl, m@, l)),
            pair_score(items@.take(i as int), cvv, cl, m@, l) >= 0,
        decreases items.len() - i,
    {
        let item = &items[i];
        proof {
            assert(items@.take(i + 1).drop_last() =~= items@.take(i as int));
            lemma_pair_parts_nonneg(items@.take(i + 1), cvv, cl, m@, l);
        }
        let ghost base = pair_score(items@.take(i as int), cvv, cl, m@, l);
        let mut j: usize = 0;
        while j < item.versions.len()
            invariant
                j <= item.versions.len(),
                shape == looks_like_version(m@),
                version_ok == admits_version(cvv, m@),
                loader_ok == admits_loader(cl, l),
                base >= 0,
                versions_pair(item.versions@.take(j as int), cvv, cl, m@, l) >= 0,
                n == capped(base + versions_pair(item.versions@.take(j as int), cvv, cl, m@, l)),
            decreases item.versions.len() - j,
        {
            let version = &item.versions[j];
            proof {
                assert(item.versions@.take(j + 1).drop_last() =~= item.versions@.take(j as int));
                lemma_versions_nonneg(item.versions@.take(j + 1), cvv, cl, m@, l);
                lemma_count_loader_nonneg(version.loaders@, l);
                lemma_weight_nonneg(version.minecraft_versions@, m@, count_loader(version.loaders@, l));
            }
            if shape && version_ok && loader_ok {
                let w = count_loader_exec(&version.loaders, l);
                n = add_matches(n, &version.minecraft_versions, m, w);
            }
            j = j + 1;
        }
        assert(item.versions@.take(item.versions.len() as int) =~= item.versions@);
        match item.target_hint.loader {
            Some(hl) => {
                if hl == l && loader_ok && version_ok {
                    proof {
                        lemma_weight_nonneg(item.target_hint.minecraft_versions@, m@, 2);
                    }
                    n = add_matches(n, &item.target_hint.minecraft_versions, m, 2);
                }
            },
            None => {},
        }
        i = i + 1;
    }
    assert(items@.take(items.len() as int) =~= items@);
    n
}


/// The capped vote count of a Minecraft version.
fn version_count(items: &Vec<IdentifiedJar>, cv: &Option<String>, cl: Option<ModLoader>, m: &String) -> (r: u64)
    ensures
        r == capped(version_score(items@, opt_text(*cv), cl, m@)),
{
    let ghost cvv = opt_text(*cv);
    let shape = looks_like_minecraft_version(m.as_str());
    let version_ok = admits_version_exec(cv, m);
    let mut n: u64 = 0;
    let mut i: usize = 0;
    while i < items.len()
        invariant
            i <= items.len(),
            cvv == opt_text(*cv),
            shape == looks_like_version(m@),
            version_ok == admits_version(cvv, m@),
            n == capped(version_score(items@.take(i as int), cvv, cl, m@)),
            version_score(items@.take(i as int), cvv, cl, m@) >= 0,
        decreases items.len() - i,
    {
        let item = &items[i];
        proof {
            assert(items@.take(i + 1).drop_last() =~= items@.take(i as int));
            lemma_pair_parts_nonneg(items@.take(i + 1), cvv, cl, m@, ModLoader::Fabric);
        }
        let ghost base = version_score(items@.take(i as int), cvv, cl, m@);
        let mut j: usize = 0;
        while j < item.versions.len()
            invariant
                j <= item.versions.len(),
                shape == looks_like_version(m@),
                version_ok == admits_version(cvv, m@),
                base >= 0,
                versions_version(item.versions@.take(j as int), cvv, m@) >= 0,
                n == capped(base + versions_version(item.versions@.take(j as int), cvv, m@)),
            decreases item.versions.len() - j,
        {
            let version = &item.versions[j];
            proof {
                assert(item.versions@.take(j + 1).drop_last() =~= item.versions@.take(j as int));
                lemma_versions_nonneg(item.versions@.take(j + 1), cvv, cl, m@, ModLoader::Fabric);
                lemma_weight_nonneg(version.minecraft_versions@, m@, 1);
            }
            if shape && version_ok {
                n = add_matches(n, &version.minecraft_versions, m, 1);
            }
            j = j + 1;
        }
        assert(item.versions@.take(item.versions.len() as int) =~= item.versions@);
        match item.target_hint.loader {
            Some(hl) => {
                if admits_loader_exec(cl, hl) && version_ok {
                    proof {
                        lemma_weight_nonneg(item.target_hint.minecraft_versions@, m@, 2);
                    }
                    n = add_matches(n, &item.target_hint.minecraft_versions, m, 2);
                }
            },
            None => {},
        }
        i = i + 1;
    }
    assert(items@.take(items.len() as int) =~= items@);
    n
}

/// The capped vote count of a loader.
fn loader_count(items: &Vec<IdentifiedJar>, cl: Option<ModLoader>, l: ModLoader) -> (r: u64)
    ensures
        r == capped(loader_score(items@, cl, l)),
{
    let loader_ok = admits_loader_exec(cl, l);
    let mut n: u64 = 0;
    let mut i: usize = 0;
    while i < items.len()
        invariant
            i <= items.len(),
            loader_ok == admits_loader(cl, l),
            n == capped(loader_score(items@.take(i as int), cl, l)),
            loader_score(items@.take(i as int), cl, l) >= 0,
        decreases items.len() - i,
    {
        let item = &items[i];
        proof {
            assert(items@.take(i + 1).drop_last() =~= items@.take(i as int));
            lemma_pair_parts_nonneg(items@.take(i + 1), None, cl, Seq::empty(), l);
        }
        let ghost base = loader_score(items@.take(i as int), cl, l);
        let mut j: usize = 0;
        while j < item.versions.len()
            invariant
                j <= item.versions.len(),
                loader_ok == admits_loader(cl, l),
                base >= 0,
                versions_loader(item.versions@.take(j as int), cl, l) >= 0,
                n == capped(base + versions_loader(item.versions@.take(j as int), cl, l)),
            decreases item.versions.len() - j,
        {
            let version = &item.versions[j];
            proof {
                assert(item.versions@.take(j + 1).drop_last() =~= item.versions@.take(j as int));
                lemma_versions_nonneg(item.versions@.take(j + 1), None, cl, Seq::empty(), l);
                lemma_count_loader_nonneg(version.loaders@, l);
            }
            if loader_ok {
                let w = count_loader_exec(&version.loaders, l);
                n = n.saturating_add(w);
            }
            j = j + 1;
        }
        assert(item.versions@.take(item.versions.len() as int) =~= item.versions@);
        if item.target_hint.loader == Some(l) && loader_ok {
            n = n.saturating_add(2);
        }
        i = i + 1;
    }
    assert(items@.take(items.len() as int) =~= items@);
    n
}

/// A catalog version or the file metadata of this item mentions `m`.
pub open spec fn item_mentions(item: IdentifiedJar, m: Seq<char>) -> bool {
    ||| exists|j: int, k: int|
        0 <= j < item.versions.len() && 0 <= k < item.versions@[j].minecraft_versions.len()
            && #[trigger] item.versions@[j].minecraft_versions@[k]@ == m
    ||| exists|k: int|
        0 <= k < item.target_hint.minecraft_versions.len() && #[trigger] item.target_hint.minecraft_versions@[k]@
            == m
}

/// Some item mentions `m`.
pub open spec fn mentions(items: Seq<IdentifiedJar>, m: Seq<char>) -> bool {
    exists|i: int| 0 <= i < items.len() && #[trigger] item_mentions(items[i], m)
}

proof fn lemma_weight_mentions(list: Seq<String>, m: Seq<char>, w: int) -> (k: int)
    requires
        matches_weight(list, m, w) != 0,
    ensures
        0 <= k < list.len() && list[k]@ == m,
    decreases list.len(),
{
    if matches_weight(list.drop_last(), m, w) != 0 {
        lemma_weight_mentions(list.drop_last(), m, w)
    } else {
        (list.len() - 1) as int
    }
}

proof fn lemma_versions_mention(vs: Seq<ProjectVersion>, cv: Option<Seq<char>>, cl: Option<ModLoader>, m: Seq<char>, l: ModLoader) -> (jk: (int, int))
    requires
        versions_pair(vs, cv, cl, m, l) != 0 || versions_version(vs, cv, m) != 0,
    ensures
        0 <= jk.0 < vs.len() && 0 <= jk.1 < vs[jk.0].minecraft_versions.len() && vs[jk.0].minecraft_versions@[jk.1]@ == m,
    decreases vs.len(),
{
    if versions_pair(vs.drop_last(), cv, cl, m, l) != 0 || versions_version(vs.drop_last(), cv, m) != 0 {
        lemma_versions_mention(vs.drop_last(), cv, cl, m, l)
    } else {
        let j = vs.len() - 1;
        if matches_weight(vs[j].minecraft_versions@, m, count_loader(vs[j].loaders@, l)) != 0 {
            (j as int, lemma_weight_mentions(vs[j].minecraft_versions@, m, count_loader(vs[j].loaders@, l)))
        } else {
            (j as int, lemma_weight_mentions(vs[j].minecraft_versions@, m, 1))
        }
    }
}

/// Only versions that some list mentions get votes.
proof fn lemma_votes_need_mention(items: Seq<IdentifiedJar>, cv: Option<Seq<char>>, cl: Option<ModLoader>, m: Seq<char>, l: ModLoader)
    requires
        pair_score(items, cv, cl, m, l) != 0 || version_score(items, cv, cl, m) != 0,
    ensures
        mentions(items, m),
    decreases items.len(),
{
    let last = items.len() - 1;
    if pair_score(items.drop_last(), cv, cl, m, l) != 0 || version_score(items.drop_last(), cv, cl, m) != 0 {
        lemma_votes_need_mention(items.drop_last(), cv, cl, m, l);
        let i = choose|i: int| 0 <= i < items.drop_last().len() && #[trigger] item_mentions(items.drop_last()[i], m);
        assert(items.drop_last()[i] == items[i]);
    } else if versions_pair(items[last].versions@, cv, cl, m, l) != 0 || versions_version(items[last].versions@, cv, m) != 0 {
        let (j, k) = lemma_versions_mention(items[last].versions@, cv, cl, m, l);
        assert(items[last].versions@[j].minecraft_versions@[k]@ == m);
        assert(item_mentions(items[last], m));
    } else {
        let hint = items[last].target_hint;
        let k = lemma_weight_mentions(hint.minecraft_versions@, m, 2);
        assert(items[last].target_hint.minecraft_versions@[k]@ == m);
        assert(item_mentions(items[last], m));
    }
}

/// The Minecraft versions listed by catalog versions, in order.
pub open spec fn version_strings(vs: Seq<ProjectVersion>) -> Seq<Seq<char>>
    decreases vs.len(),
{
    if vs.len() == 0 {
        Seq::empty()
    } else {
        version_strings(vs.drop_last()) + texts(vs.last().minecraft_versions@)
    }
}

/// Every Minecraft version the items list, in order, with repeats.
pub open spec fn item_strings(items: Seq<IdentifiedJar>) -> Seq<Seq<char>>
    decreases items.len(),
{
    if items.len() == 0 {
        Seq::empty()
    } else {
        item_strings(items.drop_last()) + version_strings(items.last().versions@) + texts(
            items.last().target_hint.minecraft_versions@,
        )
    }
}

proof fn lemma_concat_contains(a: Seq<Seq<char>>, b: Seq<Seq<char>>, m: Seq<char>)
    ensures
        (a.contains(m) || b.contains(m)) ==> (a + b).contains(m),
{
    if a.contains(m) {
        let i = choose|i: int| 0 <= i < a.len() && a[i] == m;
        assert((a + b)[i] == m);
    } else if b.contains(m) {
        let i = choose|i: int| 0 <= i < b.len() && b[i] == m;
        assert((a + b)[a.len() + i] == m);
    }
}

proof fn lemma_version_strings_contain(vs: Seq<ProjectVersion>, j: int, k: int)
    requires
        0 <= j < vs.len(),
        0 <= k < vs[j].minecraft_versions.len(),
    ensures
        version_strings(vs).contains(vs[j].minecraft_versions@[k]@),
    decreases vs.len(),
{
    let m = vs[j].minecraft_versions@[k]@;
    let last = vs.len() - 1;
    if j < last {
        lemma_version_strings_contain(vs.drop_last(), j, k);
        assert(vs.drop_last()[j] == vs[j]);
        lemma_concat_contains(version_strings(vs.drop_last()), texts(vs.last().minecraft_versions@), m);
    } else {
        assert(texts(vs.last().minecraft_versions@)[k] == m);
        lemma_concat_contains(version_strings(vs.drop_last()), texts(vs.last().minecraft_versions@), m);
    }
}

proof fn lemma_item_strings_contain(items: Seq<IdentifiedJar>, m: Seq<char>)
    requires
        mentions(items, m),
    ensures
        item_strings(items).contains(m),
    decreases items.len(),
{
    let i = choose|i: int| 0 <= i < items.len() && #[trigger] item_mentions(items[i], m);
    let last = items.len() - 1;
    let front = item_strings(items.drop_last());
    let middle = version_strings(items.last().versions@);
    let back = texts(items.last().target_hint.minecraft_versions@);
    if i < last {
        assert(items.drop_last()[i] == items[i]);
        lemma_item_strings_contain(items.drop_last(), m);
        lemma_concat_contains(front, middle, m);
        lemma_concat_contains(front + middle, back, m);
    } else if exists|k: int|
        0 <= k < items[i].target_hint.minecraft_versions.len() && #[trigger] items[i].target_hint.minecraft_versions@[k]@
            == m {
        let k = choose|k: int|
            0 <= k < items[i].target_hint.minecraft_versions.len() && #[trigger] items[i].target_hint.minecraft_versions@[k]@
                == m;
        assert(back[k] == m);
        lemma_concat_contains(front + middle, back, m);
    } else {
        let (j, k) = choose|j: int, k: int|
            0 <= j < items[i].versions.len() && 0 <= k < items[i].versions@[j].minecraft_versions.len()
                && #[trigger] items[i].versions@[j].minecraft_versions@[k]@ == m;
        lemma_version_strings_contain(items[i].versions@, j, k);
        lemma_concat_contains(front, middle, m);
        lemma_concat_contains(front + middle, back, m);
    }
}

fn append_texts(out: &mut Vec<String>, list: &Vec<String>)
    ensures
        texts(final(out)@) == texts(old(out)@) + texts(list@),
{
    let ghost start = texts(out@);
    let mut k: usize = 0;
    while k < list.len()
        invariant
            k <= list.len(),
            texts(out@) == start + texts(list@.take(k as int)),
        decreases list.len() - k,
    {
        let ghost before = out@;
        out.push(list[k].clone());
        assert(texts(out@) =~= texts(before).push(list@[k as int]@));
        assert(texts(list@.take(k + 1)) =~= texts(list@.take(k as int)).push(list@[k as int]@));
        assert(texts(out@) =~= start + texts(list@.take(k + 1)));
        k = k + 1;
    }
    assert(list@.take(list.len() as int) =~= list@);
}

/// Every Minecraft version the items mention, with repeats.
fn mentioned_versions(items: &Vec<IdentifiedJar>) -> (r: Vec<String>)
    ensures
        texts(r@) == item_strings(items@),
{
    let mut out: Vec<String> = Vec::new();
    let mut i: usize = 0;
    while i < items.len()
        invariant
            i <= items.len(),
            texts(out@) == item_strings(items@.take(i as int)),
        decreases items.len() - i,
    {
        let item = &items[i];
        let ghost start = texts(out@);
        let mut j: usize = 0;
        while j < item.versions.len()
            invariant
                j <= item.versions.len(),
                texts(out@) == start + version_strings(item.versions@.take(j as int)),
            decreases item.versions.len() - j,
        {
            append_texts(&mut out, &item.versions[j].minecraft_versions);
            proof {
                assert(item.versions@.take(j + 1).drop_last() =~= item.versions@.take(j as int));
                assert(texts(out@) =~= start + version_strings(item.versions@.take(j + 1)));
            }
            j = j + 1;
        }
        append_texts(&mut out, &item.target_hint.minecraft_versions);
        proof {
            assert(item.versions@.take(item.versions.len() as int) =~= item.versions@);
            assert(items@.take(i + 1).drop_last() =~= items@.take(i as int));
            assert(texts(out@) =~= item_strings(items@.take(i + 1)));
        }
        i = i + 1;
    }
    assert(items@.take(items.len() as int) =~= items@);
    out
}


proof fn lemma_order_reflexive(a: Seq<int>)
    ensures
        sequence_order(a, a) == 0,
{
    lemma_order_antisymmetric(a, a);
}

/// The four loaders, in declaration order.
fn all_loaders() -> (r: Vec<ModLoader>)
    ensures
        r@ == seq![ModLoader::Fabric, ModLoader::Forge, ModLoader::Neoforge, ModLoader::Quilt],
{
    let mut v: Vec<ModLoader> = Vec::new();
    v.push(ModLoader::Fabric);
    v.push(ModLoader::Forge);
    v.push(ModLoader::Neoforge);
    v.push(ModLoader::Quilt);
    v
}

pub open spec fn pair_settled(items: Seq<IdentifiedJar>, cv: Option<Seq<char>>, cl: Option<ModLoader>, best: Option<(Seq<char>, ModLoader)>, m: Seq<char>, l: ModLoader) -> bool {
    pair_score(items, cv, cl, m, l) > 0 ==> match best {
        None => false,
        Some(b) => !pair_beats(items, cv, cl, (m, l), b),
    }
}

pub open spec fn best_view(p: Option<(String, ModLoader, u64)>) -> Option<(Seq<char>, ModLoader)> {
    match p {
        Some((m, l, _)) => Some((m@, l)),
        None => None,
    }
}

pub open spec fn pair_view(p: Option<(String, ModLoader)>) -> Option<(Seq<char>, ModLoader)> {
    match p {
        Some((m, l)) => Some((m@, l)),
        None => None,
    }
}

/// The pair of Minecraft version and loader with the most votes.
fn choose_pair(items: &Vec<IdentifiedJar>, cv: &Option<String>, cl: Option<ModLoader>) -> (r: Option<(String, ModLoader)>)
    ensures
        best_pair(items@, opt_text(*cv), cl, pair_view(r)),
{
    let ghost cvv = opt_text(*cv);
    let heard = mentioned_versions(items);
    let loaders = all_loaders();
    let mut best: Option<(String, ModLoader, u64)> = None;
    let mut k: usize = 0;
    while k < heard.len()
        invariant
            k <= heard.len(),
            cvv == opt_text(*cv),
            texts(heard@) == item_strings(items@),
            loaders@ == seq![ModLoader::Fabric, ModLoader::Forge, ModLoader::Neoforge, ModLoader::Quilt],
            match best {
                Some((bm, bl, bc)) => bc == capped(pair_score(items@, cvv, cl, bm@, bl)) && pair_score(items@, cvv, cl, bm@, bl) > 0,
                None => true,
            },
            forall|j: int, l: ModLoader| 0 <= j < k ==> #[trigger] pair_settled(items@, cvv, cl, best_view(best), heard@[j]@, l),
        decreases heard.len() - k,
    {
        let m = &heard[k];
        let numbers = numbers_of(&chars_of(m.as_str()));
        let mut t: usize = 0;
        while t < loaders.len()
            invariant
                t <= loaders.len(),
                k < heard.len(),
                cvv == opt_text(*cv),
                m == heard@[k as int],
                widen(numbers@) == version_numbers(m@),
                loaders@ == seq![ModLoader::Fabric, ModLoader::Forge, ModLoader::Neoforge, ModLoader::Quilt],
                match best {
                    Some((bm, bl, bc)) => bc == capped(pair_score(items@, cvv, cl, bm@, bl)) && pair_score(items@, cvv, cl, bm@, bl) > 0,
                    None => true,
                },
                forall|j: int, l: ModLoader| 0 <= j < k ==> #[trigger] pair_settled(items@, cvv, cl, best_view(best), heard@[j]@, l),
                forall|x: int| 0 <= x < t ==> #[trigger] pair_settled(items@, cvv, cl, best_view(best), m@, loaders@[x]),
            decreases loaders.len() - t,
        {
            let l = loaders[t];
            let count = pair_count(items, cv, cl, m, l);
            proof {
                lemma_pair_parts_nonneg(items@, cvv, cl, m@, l);
            }
            let take = match &best {
                None => count > 0,
                Some((bm, _, bc)) => {
                    let best_numbers = numbers_of(&chars_of(bm.as_str()));
                    count > 0 && (count > *bc || (count == *bc && order_numbers(&numbers, &best_numbers) >= 0))
                },
            };
            let ghost old_best = best_view(best);
            if take {
                best = Some((m.clone(), l, count));
                proof {
                    let nb = (m@, l);
                    lemma_order_reflexive(version_numbers(m@));
                    assert forall|j: int, l2: ModLoader| 0 <= j < k implies #[trigger] pair_settled(items@, cvv, cl, Some(nb), heard@[j]@, l2) by {
                        assert(pair_settled(items@, cvv, cl, old_best, heard@[j]@, l2));
                        if pair_score(items@, cvv, cl, heard@[j]@, l2) > 0 {
                            if let Some(ob) = old_best {
                                lemma_order_antisymmetric(version_numbers(nb.0), version_numbers(ob.0));
                                if version_order(heard@[j]@, ob.0) <= 0 && version_order(ob.0, nb.0) <= 0 {
                                    lemma_order_transitive(version_numbers(heard@[j]@), version_numbers(ob.0), version_numbers(nb.0));
                                }
                            }
                        }
                    }
                    assert forall|x: int| 0 <= x < t + 1 implies #[trigger] pair_settled(items@, cvv, cl, Some(nb), m@, loaders@[x]) by {
                        if x < t {
                            assert(pair_settled(items@, cvv, cl, old_best, m@, loaders@[x]));
                            if pair_score(items@, cvv, cl, m@, loaders@[x]) > 0 {
                                if let Some(ob) = old_best {
                                    lemma_order_antisymmetric(version_numbers(nb.0), version_numbers(ob.0));
                                    if version_order(m@, ob.0) <= 0 && version_order(ob.0, nb.0) <= 0 {
                                        lemma_order_transitive(version_numbers(m@), version_numbers(ob.0), version_numbers(nb.0));
                                    }
                                }
                            }
                        }
                    }
                }
            } else {
                proof {
                    assert(pair_settled(items@, cvv, cl, old_best, m@, l));
                }
            }
            t = t + 1;
        }
        proof {
            let bv = best_view(best);
            assert forall|j: int, l: ModLoader| 0 <= j < k + 1 implies #[trigger] pair_settled(items@, cvv, cl, bv, heard@[j]@, l) by {
                if j == k {
                    assert(l == loaders@[0] || l == loaders@[1] || l == loaders@[2] || l == loaders@[3]);
                    if l == loaders@[0] {
                        assert(pair_settled(items@, cvv, cl, bv, m@, loaders@[0]));
                    } else if l == loaders@[1] {
                        assert(pair_settled(items@, cvv, cl, bv, m@, loaders@[1]));
                    } else if l == loaders@[2] {
                        assert(pair_settled(items@, cvv, cl, bv, m@, loaders@[2]));
                    } else {
                        assert(pair_settled(items@, cvv, cl, bv, m@, loaders@[3]));
                    }
                }
            }
        }
        k = k + 1;
    }
    let result = match best {
        Some((bm, bl, _)) => Some((bm, bl)),
        None => None,
    };
    proof {
        let bv = pair_view(result);
        assert forall|m: Seq<char>, l: ModLoader| pair_score(items@, cvv, cl, m, l) > 0 implies pair_settled(items@, cvv, cl, bv, m, l) by {
            lemma_votes_need_mention(items@, cvv, cl, m, l);
            lemma_item_strings_contain(items@, m);
            let j = choose|j: int| 0 <= j < item_strings(items@).len() && item_strings(items@)[j] == m;
            assert(texts(heard@)[j] == heard@[j]@);
            assert(pair_settled(items@, cvv, cl, bv, heard@[j]@, l));
        }
        if bv is None {
            assert forall|m: Seq<char>, l: ModLoader| pair_score(items@, cvv, cl, m, l) == 0 by {
                lemma_pair_parts_nonneg(items@, cvv, cl, m, l);
                if pair_score(items@, cvv, cl, m, l) > 0 {
                    assert(pair_settled(items@, cvv, cl, bv, m, l));
                }
            }
        } else {
            assert forall|m: Seq<char>, l: ModLoader| pair_score(items@, cvv, cl, m, l) > 0 implies !pair_beats(items@, cvv, cl, (m, l), bv->0) by {
                assert(pair_settled(items@, cvv, cl, bv, m, l));
            }
        }
    }
    result
}


pub open spec fn version_settled(items: Seq<IdentifiedJar>, cv: Option<Seq<char>>, cl: Option<ModLoader>, best: Option<Seq<char>>, m: Seq<char>) -> bool {
    version_score(items, cv, cl, m) > 0 ==> match best {
        None => false,
        Some(b) => {
            let sm = capped(version_score(items, cv, cl, m));
            let sb = capped(version_score(items, cv, cl, b));
            sm < sb || (sm == sb && version_order(m, b) <= 0)
        },
    }
}

pub open spec fn version_best_view(p: Option<(String, u64)>) -> Option<Seq<char>> {
    match p {
        Some((m, _)) => Some(m@),
        None => None,
    }
}

/// The Minecraft version with the most votes.
fn choose_version(items: &Vec<IdentifiedJar>, cv: &Option<String>, cl: Option<ModLoader>) -> (r: Option<String>)
    ensures
        best_version(items@, opt_text(*cv), cl, opt_text(r)),
{
    let ghost cvv = opt_text(*cv);
    let heard = mentioned_versions(items);
    let mut best: Option<(String, u64)> = None;
    let mut k: usize = 0;
    while k < heard.len()
        invariant
            k <= heard.len(),
            cvv == opt_text(*cv),
            texts(heard@) == item_strings(items@),
            match best {
                Some((bm, bc)) => bc == capped(version_score(items@, cvv, cl, bm@)) && version_score(items@, cvv, cl, bm@) > 0,
                None => true,
            },
            forall|j: int| 0 <= j < k ==> #[trigger] version_settled(items@, cvv, cl, version_best_view(best), heard@[j]@),
        decreases heard.len() - k,
    {
        let m = &heard[k];
        let count = version_count(items, cv, cl, m);
        proof {
            lemma_pair_parts_nonneg(items@, cvv, cl, m@, ModLoader::Fabric);
        }
        let take = match &best {
            None => count > 0,
            Some((bm, bc)) => {
                let numbers = numbers_of(&chars_of(m.as_str()));
                let best_numbers = numbers_of(&chars_of(bm.as_str()));
                count > 0 && (count > *bc || (count == *bc && order_numbers(&numbers, &best_numbers) >= 0))
            },
        };
        let ghost old_best = version_best_view(best);
        if take {
            best = Some((m.clone(), count));
            proof {
                let nb = m@;
                lemma_order_reflexive(version_numbers(m@));
                assert forall|j: int| 0 <= j < k + 1 implies #[trigger] version_settled(items@, cvv, cl, Some(nb), heard@[j]@) by {
                    if j < k {
                        assert(version_settled(items@, cvv, cl, old_best, heard@[j]@));
                        if version_score(items@, cvv, cl, heard@[j]@) > 0 {
                            if let Some(ob) = old_best {
                                lemma_order_antisymmetric(version_numbers(nb), version_numbers(ob));
                                if version_order(heard@[j]@, ob) <= 0 && version_order(ob, nb) <= 0 {
                                    lemma_order_transitive(version_numbers(heard@[j]@), version_numbers(ob), version_numbers(nb));
                                }
                            }
                        }
                    }
                }
            }
        } else {
            proof {
                if let Some(ob) = old_best {
                    lemma_order_antisymmetric(version_numbers(m@), version_numbers(ob));
                }
                assert(version_settled(items@, cvv, cl, old_best, m@));
            }
        }
        k = k + 1;
    }
    let result = match best {
        Some((bm, _)) => Some(bm),
        None => None,
    };
    proof {
        let bv = opt_text(result);
        assert(bv == version_best_view(best));
        assert forall|m: Seq<char>| version_score(items@, cvv, cl, m) > 0 implies version_settled(items@, cvv, cl, bv, m) by {
            lemma_votes_need_mention(items@, cvv, cl, m, ModLoader::Fabric);
            lemma_item_strings_contain(items@, m);
            let j = choose|j: int| 0 <= j < item_strings(items@).len() && item_strings(items@)[j] == m;
            assert(texts(heard@)[j] == heard@[j]@);
            assert(version_settled(items@, cvv, cl, bv, heard@[j]@));
        }
        if bv is None {
            assert forall|m: Seq<char>| version_score(items@, cvv, cl, m) == 0 by {
                lemma_pair_parts_nonneg(items@, cvv, cl, m, ModLoader::Fabric);
                if version_score(items@, cvv, cl, m) > 0 {
                    assert(version_settled(items@, cvv, cl, bv, m));
                }
            }
        } else {
            let b = bv->0;
            assert(version_score(items@, cvv, cl, b) > 0);
            assert forall|m: Seq<char>| version_score(items@, cvv, cl, m) > 0 implies #[trigger] version_not_beaten(items@, cvv, cl, m, b) by {
                assert(version_settled(items@, cvv, cl, bv, m));
            }
        }
        assert(best_version(items@, cvv, cl, bv));
    }
    result
}

/// The loader with the most votes.
fn choose_loader(items: &Vec<IdentifiedJar>, cl: Option<ModLoader>) -> (r: Option<ModLoader>)
    ensures
        best_loader(items@, cl, r),
{
    let loaders = all_loaders();
    let mut best: Option<(ModLoader, u64)> = None;
    let mut t: usize = 0;
    while t < loaders.len()
        invariant
            t <= loaders.len(),
            loaders@ == seq![ModLoader::Fabric, ModLoader::Forge, ModLoader::Neoforge, ModLoader::Quilt],
            match best {
                Some((bl, bc)) => bc == capped(loader_score(items@, cl, bl)) && loader_score(items@, cl, bl) > 0
                    && forall|x: int| 0 <= x < t ==> capped(loader_score(items@, cl, #[trigger] loaders@[x])) <= bc,
                None => forall|x: int| 0 <= x < t ==> loader_score(items@, cl, #[trigger] loaders@[x]) == 0,
            },
        decreases loaders.len() - t,
    {
        let l = loaders[t];
        let count = loader_count(items, cl, l);
        proof {
            lemma_pair_parts_nonneg(items@, None, cl, Seq::empty(), l);
        }
        let take = match best {
            None => count > 0,
            Some((_, bc)) => count > 0 && count >= bc,
        };
        if take {
            best = Some((l, count));
        }
        t = t + 1;
    }
    let result = match best {
        Some((bl, _)) => Some(bl),
        None => None,
    };
    proof {
        match best {
            Some((bl, bc)) => {
                assert forall|l: ModLoader| capped(loader_score(items@, cl, l)) <= capped(loader_score(items@, cl, bl)) by {
                    if l == loaders@[0] {
                    } else if l == loaders@[1] {
                    } else if l == loaders@[2] {
                    } else {
                        assert(l == loaders@[3]);
                    }
                }
            },
            None => {
                assert forall|l: ModLoader| loader_score(items@, cl, l) == 0 by {
                    if l == loaders@[0] {
                    } else if l == loaders@[1] {
                    } else if l == loaders@[2] {
                    } else {
                        assert(l == loaders@[3]);
                    }
                }
            },
        }
    }
    result
}


/// Some file carried its own loader metadata.
pub open spec fn has_jar_metadata(items: Seq<IdentifiedJar>) -> bool {
    exists|i: int| 0 <= i < items.len() && (#[trigger] items[i]).target_hint.loader is Some
}

/// Some file was found in a catalog.
pub open spec fn has_catalog_metadata(items: Seq<IdentifiedJar>) -> bool {
    exists|i: int| 0 <= i < items.len() && (#[trigger] items[i]).versions.len() > 0
}

pub open spec fn metadata_label(has_jar: bool, has_catalog: bool) -> Seq<char> {
    if has_jar && has_catalog {
        "metadados internos dos JARs e catálogos"@
    } else if has_jar {
        "metadados internos dos JARs"@
    } else {
        "metadados dos catálogos"@
    }
}

/// The outcome of target detection for given choices of the best pair,
/// version and loader: configured values first, then what the votes
/// inferred, then the previous target; the sources that contributed; and a
/// warning when some part had no evidence.
pub open spec fn detection(
    fallback: ProfileTarget,
    cv: Option<Seq<char>>,
    cl: Option<ModLoader>,
    sources: Seq<Seq<char>>,
    items: Seq<IdentifiedJar>,
    pair: Option<(Seq<char>, ModLoader)>,
    version: Option<Seq<char>>,
    loader: Option<ModLoader>,
    target: ProfileTarget,
    source: Seq<char>,
    warning: Option<Seq<char>>,
) -> bool {
    let iv = match pair {
        Some(p) => Some(p.0),
        None => version,
    };
    let il = match pair {
        Some(p) => Some(p.1),
        None => loader,
    };
    let used = (cv is None && iv is Some) || (cl is None && il is Some);
    let all = if used {
        sources.push(metadata_label(has_jar_metadata(items), has_catalog_metadata(items)))
    } else {
        sources
    };
    let complete = (cv is Some || iv is Some) && (cl is Some || il is Some);
    &&& best_pair(items, cv, cl, pair)
    &&& pair is None ==> best_version(items, cv, cl, version) && best_loader(items, cl, loader)
    &&& target.minecraft_version@ == match cv {
        Some(v) => v,
        None => match iv {
            Some(v) => v,
            None => fallback.minecraft_version@,
        },
    }
    &&& target.loader == match cl {
        Some(l) => l,
        None => match il {
            Some(l) => l,
            None => fallback.loader,
        },
    }
    &&& target.release_channels@ == fallback.release_channels@
    &&& source == if all.len() == 0 {
        "perfil anterior (nenhuma evidência automática encontrada)"@
    } else {
        joined(all, " + "@)
    }
    &&& warning == if complete {
        None
    } else {
        Some(
            "Não houve evidência suficiente para detectar todo o alvo; os campos ausentes foram mantidos a partir do perfil anterior."@,
        )
    }
}

/// Decides the Minecraft version and loader of a scanned instance: what the
/// instance's own files say wins, then the votes of the mod files' catalog
/// versions (one each) and of their own metadata (two each), then the
/// previous target. Also says where the answer came from, and warns when
/// part of it had no evidence.
pub fn detect_target(fallback: &ProfileTarget, configured: PartialTarget, identified: &Vec<IdentifiedJar>) -> (r: (
    ProfileTarget,
    String,
    Option<String>,
))
    ensures
        exists|pair: Option<(Seq<char>, ModLoader)>, version: Option<Seq<char>>, loader: Option<ModLoader>|
            #[trigger] detection(
                *fallback,
                opt_text(configured.minecraft_version),
                configured.loader,
                texts(configured.sources@),
                identified@,
                pair,
                version,
                loader,
                r.0,
                r.1@,
                opt_text(r.2),
            ),
{
    let ghost cvv = opt_text(configured.minecraft_version);
    let ghost source_view = texts(configured.sources@);
    let cv = configured.minecraft_version;
    let cl = configured.loader;
    let mut all = configured.sources;
    let pair = choose_pair(identified, &cv, cl);
    let ghost pair_choice = pair_view(pair);
    let ghost mut version_choice: Option<Seq<char>> = None;
    let ghost mut loader_choice: Option<ModLoader> = None;
    let (inferred_version, inferred_loader) = match &pair {
        Some((m, l)) => (Some(m.clone()), Some(*l)),
        None => {
            let v = choose_version(identified, &cv, cl);
            let l = choose_loader(identified, cl);
            proof {
                version_choice = opt_text(v);
                loader_choice = l;
            }
            (v, l)
        },
    };
    let mut has_jar = false;
    let mut has_catalog = false;
    let mut i: usize = 0;
    while i < identified.len()
        invariant
            i <= identified.len(),
            has_jar == exists|j: int| 0 <= j < i && (#[trigger] identified@[j]).target_hint.loader is Some,
            has_catalog == exists|j: int| 0 <= j < i && (#[trigger] identified@[j]).versions.len() > 0,
        decreases identified.len() - i,
    {
        if identified[i].target_hint.loader.is_some() {
            has_jar = true;
        }
        if identified[i].versions.len() > 0 {
            has_catalog = true;
        }
        i = i + 1;
    }
    let minecraft_version = match &cv {
        Some(v) => v.clone(),
        None => match &inferred_version {
            Some(v) => v.clone(),
            None => fallback.minecraft_version.clone(),
        },
    };
    let loader = match cl {
        Some(l) => l,
        None => match inferred_loader {
            Some(l) => l,
            None => fallback.loader,
        },
    };
    let used = (cv.is_none() && inferred_version.is_some()) || (cl.is_none() && inferred_loader.is_some());
    let complete = (cv.is_some() || inferred_version.is_some()) && (cl.is_some() || inferred_loader.is_some());
    if used {
        let label = if has_jar && has_catalog {
            String::from_str("metadados internos dos JARs e catálogos")
        } else if has_jar {
            String::from_str("metadados internos dos JARs")
        } else {
            String::from_str("metadados dos catálogos")
        };
        let ghost before = texts(all@);
        all.push(label);
        assert(texts(all@) =~= before.push(label@));
    }
    let warning = if complete {
        None
    } else {
        Some(
            String::from_str(
                "Não houve evidência suficiente para detectar todo o alvo; os campos ausentes foram mantidos a partir do perfil anterior.",
            ),
        )
    };
    let source = if all.len() == 0 {
        String::from_str("perfil anterior (nenhuma evidência automática encontrada)")
    } else {
        join_strings(&all, " + ")
    };
    let channels = fallback.release_channels.clone();
    assert(channels@ =~= fallback.release_channels@);
    let target = ProfileTarget { minecraft_version, loader, release_channels: channels };
    proof {
        assert(opt_text(inferred_version) == match pair_choice {
            Some(p) => Some(p.0),
            None => version_choice,
        });
        assert(inferred_loader == match pair_choice {
            Some(p) => Some(p.1),
            None => loader_choice,
        });
        assert(detection(
            *fallback,
            cvv,
            cl,
            source_view,
            identified@,
            pair_choice,
            version_choice,
            loader_choice,
            target,
            source@,
            opt_text(warning),
        ));
        assert(cvv == opt_text(configured.minecraft_version));
        assert(source_view == texts(configured.sources@));
        assert(cl == configured.loader);
    }
    let r = (target, source, warning);
    assert(detection(*fallback, opt_text(configured.minecraft_version), configured.loader, texts(configured.sources@), identified@, pair_choice, version_choice, loader_choice, r.0, r.1@, opt_text(r.2)));
    assert(exists|p: Option<(Seq<char>, ModLoader)>, v: Option<Seq<char>>, l: Option<ModLoader>| #[trigger] detection(*fallback, opt_text(configured.minecraft_version), configured.loader, texts(configured.sources@), identified@, p, v, l, r.0, r.1@, opt_text(r.2)));
    r
}

} // verus!

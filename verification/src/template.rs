use vstd::prelude::*;

verus! {

/// The whitespace characters that are trimmed from a placeholder name and from
/// interactive answers.
pub open spec fn is_space(c: char) -> bool {
    c == ' ' || c == '\t' || c == '\n' || c == '\r' || c == '\u{b}' || c == '\u{c}'
}

/// Index of the first occurrence of `c` in `s`, or `s.len()` when `s` does not
/// contain `c`.
pub open spec fn find_char(s: Seq<char>, c: char) -> int
    decreases s.len(),
{
    if s.len() == 0 {
        0
    } else if s[0] == c {
        0
    } else {
        1 + find_char(s.drop_first(), c)
    }
}

pub proof fn lemma_find_char(s: Seq<char>, c: char)
    ensures
        0 <= find_char(s, c) <= s.len(),
        find_char(s, c) < s.len() ==> s[find_char(s, c)] == c,
        forall|k: int| 0 <= k < find_char(s, c) ==> s[k] != c,
    decreases s.len(),
{
    if s.len() == 0 {
    } else if s[0] == c {
    } else {
        lemma_find_char(s.drop_first(), c);
        assert forall|k: int| 0 <= k < find_char(s, c) implies s[k] != c by {
            if k > 0 {
                assert(s.drop_first()[k - 1] != c);
            }
        }
    }
}

pub proof fn lemma_find_char_at(s: Seq<char>, c: char, i: int)
    requires
        0 <= i <= s.len(),
        forall|k: int| 0 <= k < i ==> s[k] != c,
        i < s.len() ==> s[i] == c,
    ensures
        find_char(s, c) == i,
    decreases s.len(),
{
    if s.len() == 0 {
    } else if i == 0 {
    } else {
        assert forall|k: int| 0 <= k < i - 1 implies s.drop_first()[k] != c by {
            assert(s[k + 1] != c);
        }
        assert(i - 1 < s.drop_first().len() ==> s.drop_first()[i - 1] == c);
        lemma_find_char_at(s.drop_first(), c, i - 1);
    }
}

fn is_space_char(c: char) -> (b: bool)
    ensures
        b == is_space(c),
{
    c == ' ' || c == '\t' || c == '\n' || c == '\r' || c == '\u{b}' || c == '\u{c}'
}

/// Index of the first occurrence of `c` in `s`, or the character count of `s`
/// when `s` does not contain `c`.
pub fn find_char_in(s: &str, c: char) -> (r: usize)
    ensures
        r == find_char(s@, c),
        r <= s@.len(),
{
    let n = s.unicode_len();
    let mut k: usize = 0;
    while k < n
        invariant
            n == s@.len(),
            k <= n,
            forall|m: int| 0 <= m < k ==> s@[m] != c,
        decreases n - k,
    {
        if s.get_char(k) == c {
            proof {
                lemma_find_char_at(s@, c, k as int);
            }
            return k;
        }
        k = k + 1;
    }
    proof {
        lemma_find_char_at(s@, c, n as int);
    }
    n
}

/// `s` with its leading whitespace removed.
pub open spec fn trim_start_spec(s: Seq<char>) -> Seq<char>
    decreases s.len(),
{
    if s.len() == 0 {
        s
    } else if is_space(s[0]) {
        trim_start_spec(s.drop_first())
    } else {
        s
    }
}

/// `s` with its trailing whitespace removed.
pub open spec fn trim_end_spec(s: Seq<char>) -> Seq<char>
    decreases s.len(),
{
    if s.len() == 0 {
        s
    } else if is_space(s.last()) {
        trim_end_spec(s.drop_last())
    } else {
        s
    }
}

/// `s` with leading and trailing whitespace removed.
pub open spec fn trim_spec(s: Seq<char>) -> Seq<char> {
    trim_end_spec(trim_start_spec(s))
}

proof fn lemma_trim_start_at(s: Seq<char>, i: int)
    requires
        0 <= i <= s.len(),
        forall|k: int| 0 <= k < i ==> is_space(s[k]),
        i < s.len() ==> !is_space(s[i]),
    ensures
        trim_start_spec(s) == s.skip(i),
    decreases s.len(),
{
    if s.len() == 0 {
        assert(trim_start_spec(s) =~= s.skip(0));
    } else if i == 0 {
        assert(trim_start_spec(s) =~= s.skip(0));
    } else {
        assert(is_space(s[0]));
        assert forall|k: int| 0 <= k < i - 1 implies is_space(s.drop_first()[k]) by {
            assert(is_space(s[k + 1]));
        }
        lemma_trim_start_at(s.drop_first(), i - 1);
        assert(s.drop_first().skip(i - 1) =~= s.skip(i));
    }
}

proof fn lemma_trim_end_at(s: Seq<char>, j: int)
    requires
        0 <= j <= s.len(),
        forall|k: int| j <= k < s.len() ==> is_space(s[k]),
        j > 0 ==> !is_space(s[j - 1]),
    ensures
        trim_end_spec(s) == s.take(j),
    decreases s.len(),
{
    if s.len() == 0 {
        assert(trim_end_spec(s) =~= s.take(0));
    } else if j == s.len() {
        assert(trim_end_spec(s) =~= s.take(j));
    } else {
        assert(is_space(s.last()));
        lemma_trim_end_at(s.drop_last(), j);
        assert(s.drop_last().take(j) =~= s.take(j));
    }
}

/// Removes leading and trailing whitespace, returning the inner slice.
pub fn trim_str(s: &str) -> (r: &str)
    ensures
        r@ == trim_spec(s@),
{
    let n = s.unicode_len();
    let mut start: usize = 0;
    while start < n && is_space_char(s.get_char(start))
        invariant
            n == s@.len(),
            start <= n,
            forall|k: int| 0 <= k < start ==> is_space(s@[k]),
        decreases n - start,
    {
        start = start + 1;
    }
    let mut end: usize = n;
    while end > start && is_space_char(s.get_char(end - 1))
        invariant
            n == s@.len(),
            start <= end <= n,
            forall|k: int| end <= k < n ==> is_space(s@[k]),
        decreases end,
    {
        end = end - 1;
    }
    proof {
        lemma_trim_start_at(s@, start as int);
        let t = s@.skip(start as int);
        assert forall|k: int| end - start <= k < t.len() implies is_space(t[k]) by {
            assert(is_space(s@[k + start]));
        }
        lemma_trim_end_at(t, end - start);
        assert(t.take(end - start) =~= s@.subrange(start as int, end as int));
    }
    s.substring_char(start, end)
}

/// The trimmed names of all placeholder tokens of `s`, in occurrence order,
/// duplicates included. A token runs from a `{` to the next `}`; a `{` with no
/// closing `}` after it ends the scan.
pub open spec fn scan_names(s: Seq<char>) -> Seq<Seq<char>>
    decreases s.len(),
    via scan_names_decreases
{
    let i = find_char(s, '{');
    if i == s.len() {
        Seq::empty()
    } else {
        let rest = s.skip(i + 1);
        let j = find_char(rest, '}');
        if j == rest.len() {
            Seq::empty()
        } else {
            seq![trim_spec(rest.take(j))] + scan_names(rest.skip(j + 1))
        }
    }
}

#[via_fn]
proof fn scan_names_decreases(s: Seq<char>) {
    lemma_find_char(s, '{');
    if find_char(s, '{') < s.len() {
        lemma_find_char(s.skip(find_char(s, '{') + 1), '}');
    }
}

/// `names` with every repetition of an earlier entry dropped: each name keeps
/// its first occurrence only.
pub open spec fn dedup_names(names: Seq<Seq<char>>) -> Seq<Seq<char>>
    decreases names.len(),
{
    if names.len() == 0 {
        Seq::empty()
    } else {
        let rest = dedup_names(names.drop_last());
        if rest.contains(names.last()) {
            rest
        } else {
            rest.push(names.last())
        }
    }
}

/// The distinct placeholder names of a command, each at its first occurrence.
pub open spec fn placeholder_names(s: Seq<char>) -> Seq<Seq<char>> {
    dedup_names(scan_names(s))
}

pub proof fn lemma_dedup_names(names: Seq<Seq<char>>)
    ensures
        forall|i: int, j: int|
            0 <= i < j < dedup_names(names).len() ==> dedup_names(names)[i] != dedup_names(
                names,
            )[j],
        forall|x: Seq<char>| #[trigger]
            dedup_names(names).contains(x) <==> names.contains(x),
    decreases names.len(),
{
    if names.len() == 0 {
    } else {
        let rest = dedup_names(names.drop_last());
        lemma_dedup_names(names.drop_last());
        assert forall|x: Seq<char>| names.contains(x) implies (names.drop_last().contains(x) || x
            == names.last()) by {
            let w = choose|w: int| 0 <= w < names.len() && names[w] == x;
            if w < names.len() - 1 {
                assert(names.drop_last()[w] == x);
            }
        }
        assert forall|x: Seq<char>| names.drop_last().contains(x) implies names.contains(x) by {
            let w = choose|w: int| 0 <= w < names.drop_last().len() && names.drop_last()[w] == x;
            assert(names[w] == x);
        }
        assert(names.contains(names.last()));
        if rest.contains(names.last()) {
        } else {
            let d = rest.push(names.last());
            assert forall|x: Seq<char>| #[trigger] d.contains(x) implies names.contains(x) by {
                let w = choose|w: int| 0 <= w < d.len() && d[w] == x;
                if w < rest.len() {
                    assert(rest[w] == x);
                    assert(rest.contains(x));
                }
            }
            assert forall|x: Seq<char>| names.contains(x) implies #[trigger] d.contains(x) by {
                if names.drop_last().contains(x) {
                    assert(rest.contains(x));
                    let w = choose|w: int| 0 <= w < rest.len() && rest[w] == x;
                    assert(d[w] == x);
                } else {
                    assert(d[rest.len() as int] == x);
                }
            }
            assert forall|i: int, j: int| 0 <= i < j < d.len() implies d[i] != d[j] by {
                if j == rest.len() {
                    if d[i] == names.last() {
                        assert(rest[i] == names.last());
                        assert(rest.contains(names.last()));
                    }
                }
            }
        }
    }
}

/// A command's prompt list holds each distinct placeholder name exactly once:
/// the list has no repeated entry, and it holds exactly the names that occur in
/// the command's tokens.
pub proof fn lemma_placeholder_names_distinct(s: Seq<char>)
    ensures
        forall|i: int, j: int|
            0 <= i < j < placeholder_names(s).len() ==> placeholder_names(s)[i]
                != placeholder_names(s)[j],
        forall|x: Seq<char>| #[trigger]
            placeholder_names(s).contains(x) <==> scan_names(s).contains(x),
{
    lemma_dedup_names(scan_names(s));
}

fn scan_names_in(s: &str) -> (out: Vec<String>)
    ensures
        out.deep_view() == scan_names(s@),
    decreases s@.len(),
{
    let n = s.unicode_len();
    let i = find_char_in(s, '{');
    if i == n {
        let out: Vec<String> = Vec::new();
        proof {
            assert(out.deep_view() =~= scan_names(s@));
        }
        return out;
    }
    let rest = s.substring_char(i + 1, n);
    let rest_n = n - i - 1;
    proof {
        assert(rest@ =~= s@.skip(i + 1));
    }
    let j = find_char_in(rest, '}');
    if j == rest_n {
        let out: Vec<String> = Vec::new();
        proof {
            assert(out.deep_view() =~= scan_names(s@));
        }
        return out;
    }
    let raw = rest.substring_char(0, j);
    let name = trim_str(raw);
    let tail = rest.substring_char(j + 1, rest_n);
    let mut out: Vec<String> = Vec::new();
    out.push(name.to_owned());
    let mut more = scan_names_in(tail);
    out.append(&mut more);
    proof {
        assert(raw@ =~= s@.skip(i + 1).take(j as int));
        assert(tail@ =~= s@.skip(i + 1).skip(j + 1));
        assert(out.deep_view() =~= scan_names(s@));
    }
    out
}

fn contains_str(v: &Vec<String>, key: &String) -> (b: bool)
    ensures
        b == v.deep_view().contains(key@),
{
    let mut i: usize = 0;
    while i < v.len()
        invariant
            i <= v.len(),
            forall|m: int| 0 <= m < i ==> v.deep_view()[m] != key@,
        decreases v.len() - i,
    {
        if v[i] == *key {
            proof {
                assert(v.deep_view()[i as int] == key@);
            }
            return true;
        }
        i = i + 1;
    }
    false
}

fn dedup_strings(names: &Vec<String>) -> (out: Vec<String>)
    ensures
        out.deep_view() == dedup_names(names.deep_view()),
{
    let mut out: Vec<String> = Vec::new();
    proof {
        assert(out.deep_view() =~= dedup_names(names.deep_view().take(0)));
    }
    let mut i: usize = 0;
    while i < names.len()
        invariant
            i <= names.len(),
            out.deep_view() == dedup_names(names.deep_view().take(i as int)),
        decreases names.len() - i,
    {
        let present = contains_str(&out, &names[i]);
        let ghost pre = out.deep_view();
        if !present {
            out.push(names[i].clone());
            proof {
                assert(out.deep_view() =~= pre.push(names.deep_view()[i as int]));
            }
        }
        proof {
            assert(names.deep_view().take(i + 1).drop_last() =~= names.deep_view().take(i as int));
            assert(names.deep_view().take(i + 1).last() == names.deep_view()[i as int]);
            assert(out.deep_view() =~= dedup_names(names.deep_view().take(i + 1)));
        }
        i = i + 1;
    }
    proof {
        assert(names.deep_view().take(names.len() as int) =~= names.deep_view());
    }
    out
}

/// The distinct placeholder names of a command, in first-occurrence order: the
/// names to prompt for, one prompt each, however often a token repeats.
pub fn find_placeholders(cmd: &str) -> (names: Vec<String>)
    ensures
        names.deep_view() == placeholder_names(cmd@),
{
    let raw = scan_names_in(cmd);
    dedup_strings(&raw)
}

/// Index of the first entry of `names` equal to `key`, or `names.len()` when
/// no entry matches.
pub open spec fn find_name(names: Seq<Seq<char>>, key: Seq<char>) -> int
    decreases names.len(),
{
    if names.len() == 0 {
        0
    } else if names[0] == key {
        0
    } else {
        1 + find_name(names.drop_first(), key)
    }
}

proof fn lemma_find_name_at(names: Seq<Seq<char>>, key: Seq<char>, i: int)
    requires
        0 <= i <= names.len(),
        forall|k: int| 0 <= k < i ==> names[k] != key,
        i < names.len() ==> names[i] == key,
    ensures
        find_name(names, key) == i,
    decreases names.len(),
{
    if names.len() == 0 {
    } else if i == 0 {
    } else {
        assert forall|k: int| 0 <= k < i - 1 implies names.drop_first()[k] != key by {
            assert(names[k + 1] != key);
        }
        assert(i - 1 < names.drop_first().len() ==> names.drop_first()[i - 1] == key);
        lemma_find_name_at(names.drop_first(), key, i - 1);
    }
}

/// The value recorded for `key`: the entry of `values` at the position of the
/// first entry of `names` equal to `key`, or nothing when no entry matches (or
/// `values` is too short to hold a value for it).
pub open spec fn lookup(names: Seq<Seq<char>>, values: Seq<Seq<char>>, key: Seq<char>) -> Option<
    Seq<char>,
> {
    let i = find_name(names, key);
    if i < names.len() && i < values.len() {
        Some(values[i])
    } else {
        None
    }
}

/// `s` with every placeholder token whose trimmed name has a recorded value
/// replaced by that value, in one left-to-right pass. A token with no recorded
/// value is kept as it stands; so is everything from a `{` with no closing `}`.
pub open spec fn subst(s: Seq<char>, names: Seq<Seq<char>>, values: Seq<Seq<char>>) -> Seq<char>
    decreases s.len(),
    via subst_decreases
{
    let i = find_char(s, '{');
    if i == s.len() {
        s
    } else {
        let rest = s.skip(i + 1);
        let j = find_char(rest, '}');
        if j == rest.len() {
            s
        } else {
            let repl = match lookup(names, values, trim_spec(rest.take(j))) {
                Some(v) => v,
                None => s.subrange(i, i + j + 2),
            };
            s.take(i) + repl + subst(rest.skip(j + 1), names, values)
        }
    }
}

#[via_fn]
proof fn subst_decreases(s: Seq<char>, names: Seq<Seq<char>>, values: Seq<Seq<char>>) {
    lemma_find_char(s, '{');
    if find_char(s, '{') < s.len() {
        lemma_find_char(s.skip(find_char(s, '{') + 1), '}');
    }
}

fn lookup_value<'a>(names: &Vec<String>, values: &'a Vec<String>, key: &str) -> (r: Option<
    &'a String,
>)
    ensures
        match r {
            Some(v) => lookup(names.deep_view(), values.deep_view(), key@) == Some(v@),
            None => lookup(names.deep_view(), values.deep_view(), key@) is None,
        },
{
    let mut i: usize = 0;
    while i < names.len()
        invariant
            i <= names.len(),
            forall|m: int| 0 <= m < i ==> names.deep_view()[m] != key@,
        decreases names.len() - i,
    {
        if str_eq(names[i].as_str(), key) {
            proof {
                assert(names.deep_view()[i as int] == key@);
                lemma_find_name_at(names.deep_view(), key@, i as int);
            }
            if i < values.len() {
                return Some(&values[i]);
            } else {
                return None;
            }
        }
        i = i + 1;
    }
    proof {
        lemma_find_name_at(names.deep_view(), key@, names.len() as int);
    }
    None
}

/// Substitutes the recorded value of each placeholder: the value of `values` at
/// the position its trimmed name has in `names`. Every occurrence of a name is
/// replaced in the one pass; a token whose name is not in `names` stays as it
/// stands.
pub fn substitute(cmd: &str, names: &Vec<String>, values: &Vec<String>) -> (r: String)
    ensures
        r@ == subst(cmd@, names.deep_view(), values.deep_view()),
    decreases cmd@.len(),
{
    let n = cmd.unicode_len();
    let i = find_char_in(cmd, '{');
    if i == n {
        return cmd.to_owned();
    }
    let rest = cmd.substring_char(i + 1, n);
    proof {
        assert(rest@ =~= cmd@.skip(i + 1));
    }
    let rest_n = n - i - 1;
    let j = find_char_in(rest, '}');
    if j == rest_n {
        return cmd.to_owned();
    }
    let raw = rest.substring_char(0, j);
    let name = trim_str(raw);
    let mut out = String::new();
    out.append(cmd.substring_char(0, i));
    match lookup_value(names, values, name) {
        Some(v) => {
            out.append(v.as_str());
        },
        None => {
            out.append(cmd.substring_char(i, i + j + 2));
        },
    }
    let tail = rest.substring_char(j + 1, rest_n);
    let tail_done = substitute(tail, names, values);
    out.append(tail_done.as_str());
    proof {
        assert(raw@ =~= cmd@.skip(i + 1).take(j as int));
        assert(tail@ =~= cmd@.skip(i + 1).skip(j + 1));
        assert(out@ =~= subst(cmd@, names.deep_view(), values.deep_view()));
    }
    out
}

/// A command in which the scan finds no placeholder token is returned unchanged
/// by substitution, whatever names and values are supplied.
pub proof fn lemma_no_token_unchanged(s: Seq<char>, names: Seq<Seq<char>>, values: Seq<Seq<char>>)
    requires
        scan_names(s).len() == 0,
    ensures
        subst(s, names, values) == s,
{
    let i = find_char(s, '{');
    if i != s.len() {
        let rest = s.skip(i + 1);
        let j = find_char(rest, '}');
        if j != rest.len() {
            assert(scan_names(s).len() >= 1);
        }
    }
}

/// Character-for-character equality of two string slices.
pub fn str_eq(a: &str, b: &str) -> (r: bool)
    ensures
        r == (a@ == b@),
{
    let na = a.unicode_len();
    let nb = b.unicode_len();
    if na != nb {
        return false;
    }
    let mut k: usize = 0;
    while k < na
        invariant
            na == a@.len(),
            na == b@.len(),
            k <= na,
            forall|m: int| 0 <= m < k ==> a@[m] == b@[m],
        decreases na - k,
    {
        if a.get_char(k) != b.get_char(k) {
            return false;
        }
        k = k + 1;
    }
    proof {
        assert(a@ =~= b@);
    }
    true
}

} // verus!

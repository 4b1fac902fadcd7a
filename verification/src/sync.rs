//! Parsing, diffing and merging of `.env` files.
use vstd::prelude::*;
use crate::text::{
    chars_less, chars_of, find_char_in, has_char, has_prefix, join, join_strings,
    lemma_first_at, lemma_join_first, lemma_first_none, lemma_text_less_irreflexive, lemma_text_less_total,
    lemma_text_less_transitive,
    lemma_trim_bounds, lemma_trim_empty, lemma_trim_end_take, lemma_trim_first,
    lemma_trim_start_skip, push_char, range_has_prefix, string_of_chars, string_of_range, text_less, trim,
    trim_end, trim_range, trim_start, white_space,
};

verus! {

// ---------------------------------------------------------------------------
// Data
// ---------------------------------------------------------------------------

/// Represents a single environment variable entry
#[derive(Debug, Clone, PartialEq)]
pub struct EnvVar {
    pub key: String,
    pub value: String,
    pub line_number: usize,
}

/// The mathematical content of an [`EnvVar`].
pub struct VarView {
    pub key: Seq<char>,
    pub value: Seq<char>,
    pub line_number: usize,
}

impl View for EnvVar {
    type V = VarView;

    open spec fn view(&self) -> VarView {
        VarView { key: self.key@, value: self.value@, line_number: self.line_number }
    }
}

/// The views of a sequence of variables.
pub open spec fn views(s: Seq<EnvVar>) -> Seq<VarView> {
    s.map_values(|e: EnvVar| e@)
}

/// Represents the difference between two .env files
#[derive(Debug)]
pub struct EnvDiff {
    pub added: Vec<EnvVar>,
    pub removed: Vec<EnvVar>,
    pub changed: Vec<ChangedVar>,
    pub unchanged: Vec<EnvVar>,
}

#[derive(Debug)]
pub struct ChangedVar {
    pub key: String,
    pub old_value: String,
    pub new_value: String,
}

/// The mathematical content of a [`ChangedVar`].
pub struct ChangedView {
    pub key: Seq<char>,
    pub old_value: Seq<char>,
    pub new_value: Seq<char>,
}

impl View for ChangedVar {
    type V = ChangedView;

    open spec fn view(&self) -> ChangedView {
        ChangedView { key: self.key@, old_value: self.old_value@, new_value: self.new_value@ }
    }
}

/// Core struct for parsing, diffing, and merging .env files
///
/// The variables are kept in a vector whose keys are pairwise different.
pub struct EnvSync {
    vars: Vec<EnvVar>,
}

impl View for EnvSync {
    type V = Seq<VarView>;

    closed spec fn view(&self) -> Seq<VarView> {
        views(self.vars@)
    }
}

// ---------------------------------------------------------------------------
// Variables keyed by name
// ---------------------------------------------------------------------------

/// No two entries share a key.
pub open spec fn unique_keys(s: Seq<VarView>) -> bool {
    forall|i: int, j: int| 0 <= i < s.len() && 0 <= j < s.len() && i != j ==> s[i].key != s[j].key
}

/// Some entry has key `k`.
pub open spec fn has_key(s: Seq<VarView>, k: Seq<char>) -> bool {
    exists|i: int| 0 <= i < s.len() && (#[trigger] s[i]).key == k
}

/// Position `i` holds the first entry with key `k`.
pub open spec fn first_key_at(s: Seq<VarView>, k: Seq<char>, i: int) -> bool {
    &&& 0 <= i < s.len()
    &&& s[i].key == k
    &&& forall|j: int| 0 <= j < i ==> (#[trigger] s[j]).key != k
}

/// The position of the first entry with key `k`.
pub open spec fn key_index(s: Seq<VarView>, k: Seq<char>) -> int {
    choose|i: int| first_key_at(s, k, i)
}

/// The entry with key `k` (the first one, were there several).
pub open spec fn lookup(s: Seq<VarView>, k: Seq<char>) -> VarView {
    s[key_index(s, k)]
}

/// The entries as a map from key to entry.
pub open spec fn env_map(s: Seq<VarView>) -> Map<Seq<char>, VarView> {
    Map::new(|k: Seq<char>| has_key(s, k), |k: Seq<char>| lookup(s, k))
}

/// Sets the entry for `v.key` to `v`: in place when the key is present,
/// at the end otherwise.
pub open spec fn upsert(s: Seq<VarView>, v: VarView) -> Seq<VarView> {
    if has_key(s, v.key) {
        s.update(key_index(s, v.key), v)
    } else {
        s.push(v)
    }
}

/// A first position, once found, is the one `key_index` names.
pub proof fn lemma_key_index(s: Seq<VarView>, k: Seq<char>, i: int)
    requires
        first_key_at(s, k, i),
    ensures
        has_key(s, k),
        key_index(s, k) == i,
        lookup(s, k) == s[i],
{
    assert(s[i].key == k);
    let c = key_index(s, k);
    assert(first_key_at(s, k, c));
    if c < i {
        assert(s[c].key != k);
    } else if c > i {
        assert(s[i].key != k);
    }
}

/// Every present key has a first position.
pub proof fn lemma_has_key_first(s: Seq<VarView>, k: Seq<char>)
    requires
        has_key(s, k),
    ensures
        first_key_at(s, k, key_index(s, k)),
    decreases s.len(),
{
    if s.len() > 0 && s[0].key == k {
        assert(first_key_at(s, k, 0));
    } else {
        let t = s.drop_first();
        let w = choose|i: int| 0 <= i < s.len() && (#[trigger] s[i]).key == k;
        assert(t[w - 1].key == k);
        lemma_has_key_first(t, k);
        let m = key_index(t, k);
        assert forall|j: int| 0 <= j < m + 1 implies (#[trigger] s[j]).key != k by {
            if j > 0 {
                assert(s[j] == t[j - 1]);
            }
        }
        assert(first_key_at(s, k, m + 1));
    }
}

/// With unique keys, any position holding key `k` is its position.
pub proof fn lemma_unique_index(s: Seq<VarView>, i: int)
    requires
        unique_keys(s),
        0 <= i < s.len(),
    ensures
        first_key_at(s, s[i].key, i),
        key_index(s, s[i].key) == i,
        lookup(s, s[i].key) == s[i],
        has_key(s, s[i].key),
{
    lemma_key_index(s, s[i].key, i);
}

/// Upserting keeps keys unique.
pub proof fn lemma_upsert_unique(s: Seq<VarView>, v: VarView)
    requires
        unique_keys(s),
    ensures
        unique_keys(upsert(s, v)),
{
    if has_key(s, v.key) {
        lemma_has_key_first(s, v.key);
    }
}

/// Upserting sets the key in the map view.
pub proof fn lemma_upsert_map(s: Seq<VarView>, v: VarView)
    requires
        unique_keys(s),
    ensures
        env_map(upsert(s, v)) == env_map(s).insert(v.key, v),
{
    let u = upsert(s, v);
    lemma_upsert_unique(s, v);
    if has_key(s, v.key) {
        lemma_has_key_first(s, v.key);
    }
    assert forall|k: Seq<char>| #[trigger] has_key(u, k) == (has_key(s, k) || k == v.key) by {
        if has_key(s, k) {
            lemma_has_key_first(s, k);
            let i = key_index(s, k);
            if k != v.key {
                assert(u[i] == s[i]);
            }
        }
        if k == v.key {
            if has_key(s, v.key) {
                assert(u[key_index(s, v.key)] == v);
            } else {
                assert(u[s.len() as int] == v);
            }
        }
        if has_key(u, k) {
            let w = choose|i: int| 0 <= i < u.len() && (#[trigger] u[i]).key == k;
            if k != v.key {
                assert(s[w].key == k);
            }
        }
    }
    assert forall|k: Seq<char>| has_key(u, k) implies #[trigger] lookup(u, k) == env_map(s).insert(
        v.key,
        v,
    )[k] by {
        if k == v.key {
            if has_key(s, v.key) {
                lemma_unique_index(u, key_index(s, v.key));
            } else {
                lemma_unique_index(u, s.len() as int);
            }
        } else {
            lemma_has_key_first(s, k);
            let i = key_index(s, k);
            assert(u[i] == s[i]);
            lemma_unique_index(s, i);
            lemma_unique_index(u, i);
        }
    }
    assert(env_map(u) =~= env_map(s).insert(v.key, v));
}

/// Sets the variable for `v.key` to `v` in `vars`.
fn upsert_var(vars: &mut Vec<EnvVar>, v: EnvVar)
    ensures
        views(final(vars)@) == upsert(views(old(vars)@), v@),
{
    let ghost s = views(vars@);
    let mut i: usize = 0;
    while i < vars.len()
        invariant
            i <= vars.len(),
            s == views(vars@),
            s == views(old(vars)@),
            forall|j: int| 0 <= j < i ==> (#[trigger] s[j]).key != v.key@,
        decreases vars.len() - i,
    {
        assert(s[i as int] == vars@[i as int]@);
        if vars[i].key == v.key {
            proof {
                lemma_key_index(s, v@.key, i as int);
            }
            vars.set(i, v);
            assert(views(vars@) =~= s.update(i as int, v@));
            return;
        }
        i = i + 1;
    }
    assert(!has_key(s, v@.key)) by {
        if has_key(s, v@.key) {
            let w = choose|j: int| 0 <= j < s.len() && (#[trigger] s[j]).key == v@.key;
            assert(s[w].key != v@.key);
        }
    }
    vars.push(v);
    assert(views(vars@) =~= s.push(v@));
}

// ---------------------------------------------------------------------------
// The .env format
// ---------------------------------------------------------------------------

/// The line terminator: a newline.
pub open spec fn newline() -> char {
    '\n'
}

/// `s` without one trailing carriage return.
pub open spec fn strip_cr(s: Seq<char>) -> Seq<char> {
    if s.len() > 0 && s.last() == '\r' {
        s.drop_last()
    } else {
        s
    }
}

/// The lines of `s`, as `str::lines` yields them: split at `\n` (dropping a
/// `\r` just before it), with no empty piece after a final `\n`.
pub open spec fn split_lines(s: Seq<char>) -> Seq<Seq<char>>
    decreases s.len(),
{
    if s.len() == 0 {
        Seq::empty()
    } else {
        match s.index_of_first(newline()) {
            Some(i) => if 0 <= i < s.len() {
                seq![strip_cr(s.take(i))] + split_lines(s.skip(i + 1))
            } else {
                seq![s]
            },
            None => seq![s],
        }
    }
}

/// The prefix that marks an exported variable.
pub open spec fn export_word() -> Seq<char> {
    seq!['e', 'x', 'p', 'o', 'r', 't', ' ']
}

/// The key and the raw (trimmed, still quoted) value of a `KEY=VALUE`
/// line; `None` for blank lines, comments and lines without `=`.
pub open spec fn line_fields(line: Seq<char>) -> Option<(Seq<char>, Seq<char>)> {
    let t = trim(line);
    if t.len() == 0 || t[0] == '#' {
        None
    } else {
        let c = if has_prefix(t, export_word()) {
            trim(t.skip(7))
        } else {
            t
        };
        match c.index_of_first('=') {
            Some(p) => Some((trim(c.take(p)), trim(c.skip(p + 1)))),
            None => None,
        }
    }
}

/// Both ends of `t` carry the same quote character, `"` or `'`.
pub open spec fn is_quoted(t: Seq<char>) -> bool {
    t.len() > 0 && ((t[0] == '"' && t.last() == '"') || (t[0] == '\'' && t.last() == '\''))
}

/// The value with surrounding whitespace and one pair of matching quotes
/// removed.
pub open spec fn unquoted(v: Seq<char>) -> Seq<char> {
    let t = trim(v);
    if is_quoted(t) {
        t.subrange(1, t.len() - 1)
    } else {
        t
    }
}

/// A value that is a single quote character, on which removing the quotes
/// fails.
pub open spec fn lone_quote(v: Seq<char>) -> bool {
    is_quoted(trim(v)) && trim(v).len() == 1
}

/// The variable that line number `n` defines, if any.
pub open spec fn parse_line(line: Seq<char>, n: usize) -> Option<VarView> {
    match line_fields(line) {
        Some(f) => Some(VarView { key: f.0, value: unquoted(f.1), line_number: n }),
        None => None,
    }
}

/// Parsing this line fails: its value is a lone quote character.
pub open spec fn line_panics(line: Seq<char>) -> bool {
    match line_fields(line) {
        Some(f) => lone_quote(f.1),
        None => false,
    }
}

/// The variables that `lines` define, a later definition replacing an
/// earlier one of the same key.
pub open spec fn parse_lines(lines: Seq<Seq<char>>) -> Seq<VarView>
    decreases lines.len(),
{
    if lines.len() == 0 {
        Seq::empty()
    } else {
        let prev = parse_lines(lines.drop_last());
        match parse_line(lines.last(), lines.len() as usize) {
            Some(v) => upsert(prev, v),
            None => prev,
        }
    }
}

/// The variables of a `.env` text.
pub open spec fn parse_env(content: Seq<char>) -> Seq<VarView> {
    parse_lines(split_lines(content))
}

/// Parsing the text fails on some line.
pub open spec fn content_panics(content: Seq<char>) -> bool {
    exists|i: int| 0 <= i < split_lines(content).len() && line_panics(
        #[trigger] split_lines(content)[i],
    )
}

/// Parsed variables have unique keys.
pub proof fn lemma_parse_lines_unique(lines: Seq<Seq<char>>)
    ensures
        unique_keys(parse_lines(lines)),
    decreases lines.len(),
{
    if lines.len() > 0 {
        lemma_parse_lines_unique(lines.drop_last());
        let prev = parse_lines(lines.drop_last());
        match parse_line(lines.last(), lines.len() as usize) {
            Some(v) => lemma_upsert_unique(prev, v),
            None => {},
        }
    }
}

/// What parsing one line gives.
enum LineOutcome {
    Skip,
    Entry(EnvVar),
    LoneQuote,
}

/// Parses the line held in `chars[lo..hi]` as line number `n`.
fn parse_line_at(chars: &Vec<char>, lo: usize, hi: usize, n: usize) -> (r: LineOutcome)
    requires
        lo <= hi <= chars.len(),
    ensures
        ({
            let line = chars@.subrange(lo as int, hi as int);
            match r {
                LineOutcome::Skip => line_fields(line) is None,
                LineOutcome::Entry(v) => !line_panics(line) && parse_line(line, n) == Some(v@),
                LineOutcome::LoneQuote => line_panics(line),
            }
        }),
{
    let ghost line = chars@.subrange(lo as int, hi as int);
    let (a, b) = trim_range(chars, lo, hi);
    let ghost t = chars@.subrange(a as int, b as int);
    if a == b {
        return LineOutcome::Skip;
    }
    assert(t[0] == chars@[a as int]);
    if chars[a] == '#' {
        return LineOutcome::Skip;
    }
    let export = vec!['e', 'x', 'p', 'o', 'r', 't', ' '];
    assert(export@ =~= export_word());
    let (c_lo, c_hi) = if range_has_prefix(chars, a, b, &export) {
        assert(t.skip(7) =~= chars@.subrange(a + 7, b as int));
        trim_range(chars, a + 7, b)
    } else {
        (a, b)
    };
    let ghost c = chars@.subrange(c_lo as int, c_hi as int);
    match find_char_in(chars, '=', c_lo, c_hi) {
        None => {
            proof {
                assert forall|j: int| 0 <= j < c.len() implies c[j] != '=' by {
                    assert(c[j] == chars@[c_lo + j]);
                }
                lemma_first_none(c, '=');
            }
            LineOutcome::Skip
        },
        Some(eq) => {
            proof {
                assert forall|j: int| 0 <= j < eq - c_lo implies c[j] != '=' by {
                    assert(c[j] == chars@[c_lo + j]);
                }
                lemma_first_at(c, '=', eq - c_lo);
                assert(c.take(eq - c_lo) =~= chars@.subrange(c_lo as int, eq as int));
                assert(c.skip(eq - c_lo + 1) =~= chars@.subrange(eq + 1, c_hi as int));
            }
            let (k_lo, k_hi) = trim_range(chars, c_lo, eq);
            let (r_lo, r_hi) = trim_range(chars, eq + 1, c_hi);
            let key = string_of_range(chars, k_lo, k_hi);
            let raw = string_of_range(chars, r_lo, r_hi);
            match EnvSync::unquote(raw.as_str()) {
                None => LineOutcome::LoneQuote,
                Some(value) => LineOutcome::Entry(EnvVar { key, value, line_number: n }),
            }
        },
    }
}

/// Unfolds `split_lines` at a line that ends with a newline at `q`.
proof fn lemma_split_step(s: Seq<char>, pos: int, q: int)
    requires
        0 <= pos <= q < s.len(),
        s[q] == newline(),
        forall|j: int| pos <= j < q ==> s[j] != newline(),
    ensures
        split_lines(s.skip(pos)) == seq![strip_cr(s.subrange(pos, q))] + split_lines(
            s.skip(q + 1),
        ),
{
    let t = s.skip(pos);
    assert forall|j: int| 0 <= j < q - pos implies t[j] != newline() by {
        assert(t[j] == s[pos + j]);
    }
    lemma_first_at(t, newline(), q - pos);
    assert(t.take(q - pos) =~= s.subrange(pos, q));
    assert(t.skip(q - pos + 1) =~= s.skip(q + 1));
}

/// Unfolds `split_lines` at a last line without a newline.
proof fn lemma_split_last(s: Seq<char>, pos: int)
    requires
        0 <= pos < s.len(),
        forall|j: int| pos <= j < s.len() ==> s[j] != newline(),
    ensures
        split_lines(s.skip(pos)) == seq![s.subrange(pos, s.len() as int)],
{
    let t = s.skip(pos);
    assert forall|j: int| 0 <= j < t.len() implies t[j] != newline() by {
        assert(t[j] == s[pos + j]);
    }
    lemma_first_none(t, newline());
    assert(t =~= s.subrange(pos, s.len() as int));
}

/// Parses a whole text; `Err(n)` names the first line on which parsing fails.
fn parse_all(content: &str) -> (r: Result<Vec<EnvVar>, usize>)
    ensures
        r is Ok <==> !content_panics(content@),
        r matches Ok(v) ==> views(v@) == parse_env(content@),
        r is Ok ==> split_lines(content@).len() <= usize::MAX,
        r matches Err(n) ==> 1 <= n <= split_lines(content@).len() && line_panics(
            split_lines(content@)[n - 1],
        ),
{
    let chars = chars_of(content);
    let ghost all = split_lines(chars@);
    let ghost mut done: Seq<Seq<char>> = Seq::empty();
    let mut vars: Vec<EnvVar> = Vec::new();
    let mut pos: usize = 0;
    let mut k: usize = 0;
    assert(chars@.skip(0) =~= chars@);
    while pos < chars.len()
        invariant
            pos <= chars.len(),
            chars@ == content@,
            k == done.len(),
            k <= pos,
            all == split_lines(chars@),
            all == done + split_lines(chars@.skip(pos as int)),
            views(vars@) == parse_lines(done),
            forall|i: int| 0 <= i < done.len() ==> !line_panics(#[trigger] done[i]),
        decreases chars.len() - pos,
    {
        let (lo, hi, next) = match find_char_in(&chars, '\n', pos, chars.len()) {
            Some(q) => {
                proof {
                    lemma_split_step(chars@, pos as int, q as int);
                }
                let hi = if q > pos && chars[q - 1] == '\r' {
                    q - 1
                } else {
                    q
                };
                assert(strip_cr(chars@.subrange(pos as int, q as int)) =~= chars@.subrange(
                    pos as int,
                    hi as int,
                ));
                (pos, hi, q + 1)
            },
            None => {
                proof {
                    lemma_split_last(chars@, pos as int);
                }
                assert(chars@.skip(chars.len() as int) =~= Seq::<char>::empty());
                (pos, chars.len(), chars.len())
            },
        };
        let ghost line = chars@.subrange(lo as int, hi as int);
        assert(split_lines(chars@.skip(pos as int)) == seq![line] + split_lines(
            chars@.skip(next as int),
        ));
        let n = k + 1;
        let ghost prev = done;
        proof {
            done = done.push(line);
            assert(done.drop_last() =~= prev);
            assert(all =~= done + split_lines(chars@.skip(next as int)));
        }
        match parse_line_at(&chars, lo, hi, n) {
            LineOutcome::Skip => {},
            LineOutcome::Entry(v) => {
                upsert_var(&mut vars, v);
            },
            LineOutcome::LoneQuote => {
                assert(all[k as int] == line);
                assert(line_panics(split_lines(content@)[k as int]));
                return Err(n);
            },
        }
        pos = next;
        k = n;
    }
    assert(split_lines(chars@.skip(pos as int)) =~= Seq::<Seq<char>>::empty());
    assert(all =~= done);
    assert(done.len() <= chars.len());
    Ok(vars)
}


// ---------------------------------------------------------------------------
// Merging and diffing
// ---------------------------------------------------------------------------

/// `base` with every entry of `other` upserted in turn.
pub open spec fn merge_all(base: Seq<VarView>, other: Seq<VarView>) -> Seq<VarView>
    decreases other.len(),
{
    if other.len() == 0 {
        base
    } else {
        upsert(merge_all(base, other.drop_last()), other.last())
    }
}

/// The entries of `other` whose key `base` lacks.
pub open spec fn added_vars(base: Seq<VarView>, other: Seq<VarView>) -> Seq<VarView> {
    other.filter(|v: VarView| !has_key(base, v.key))
}

/// The entries of `base` whose key `other` lacks.
pub open spec fn removed_vars(base: Seq<VarView>, other: Seq<VarView>) -> Seq<VarView> {
    base.filter(|v: VarView| !has_key(other, v.key))
}

/// The entries of `other` that `base` holds with the same value.
pub open spec fn unchanged_vars(base: Seq<VarView>, other: Seq<VarView>) -> Seq<VarView> {
    other.filter(|v: VarView| has_key(base, v.key) && lookup(base, v.key).value == v.value)
}

/// A key of `other` that `base` holds with another value, as a change.
pub open spec fn change_of(base: Seq<VarView>, v: VarView) -> Option<ChangedView> {
    if has_key(base, v.key) && lookup(base, v.key).value != v.value {
        Some(ChangedView { key: v.key, old_value: lookup(base, v.key).value, new_value: v.value })
    } else {
        None
    }
}

/// The keys of `other` whose value differs in `base`, in `other`'s order.
pub open spec fn changed_vars(base: Seq<VarView>, other: Seq<VarView>) -> Seq<ChangedView> {
    other.filter_map(|v: VarView| change_of(base, v))
}

/// The views of a sequence of changes.
pub open spec fn changed_views(s: Seq<ChangedVar>) -> Seq<ChangedView> {
    s.map_values(|c: ChangedVar| c@)
}

/// A copy of a variable.
fn copy_var(v: &EnvVar) -> (r: EnvVar)
    ensures
        r@ == v@,
{
    EnvVar { key: v.key.clone(), value: v.value.clone(), line_number: v.line_number }
}

/// The first position in `vars` of the key `key`.
pub(crate) fn find_key(vars: &Vec<EnvVar>, key: &String) -> (r: Option<usize>)
    ensures
        match r {
            Some(i) => first_key_at(views(vars@), key@, i as int),
            None => !has_key(views(vars@), key@),
        },
{
    let ghost s = views(vars@);
    let mut i: usize = 0;
    while i < vars.len()
        invariant
            i <= vars.len(),
            s == views(vars@),
            forall|j: int| 0 <= j < i ==> (#[trigger] s[j]).key != key@,
        decreases vars.len() - i,
    {
        assert(s[i as int] == vars@[i as int]@);
        if vars[i].key == *key {
            return Some(i);
        }
        i = i + 1;
    }
    assert(!has_key(s, key@)) by {
        if has_key(s, key@) {
            let w = choose|j: int| 0 <= j < s.len() && (#[trigger] s[j]).key == key@;
            assert(s[w].key != key@);
        }
    }
    None
}

// ---------------------------------------------------------------------------
// Writing values back
// ---------------------------------------------------------------------------

/// The value with every `"` preceded by a backslash.
pub open spec fn escape_quotes(v: Seq<char>) -> Seq<char>
    decreases v.len(),
{
    if v.len() == 0 {
        Seq::empty()
    } else if v.last() == '"' {
        escape_quotes(v.drop_last()) + seq!['\\', '"']
    } else {
        escape_quotes(v.drop_last()).push(v.last())
    }
}

/// The value as it is written out: in double quotes, with inner quotes
/// escaped, when it holds a space, `#` or `"`; as it is otherwise.
pub open spec fn quoted(v: Seq<char>) -> Seq<char> {
    if v.contains(' ') || v.contains('#') || v.contains('"') {
        seq!['"'] + escape_quotes(v) + seq!['"']
    } else {
        v
    }
}

/// The line written for one variable.
pub open spec fn pretty_line(v: VarView) -> Seq<char> {
    v.key + seq!['='] + quoted(v.value)
}

/// The lines written for `p`, in order, joined by newlines.
pub open spec fn render(p: Seq<VarView>) -> Seq<char> {
    join(p.map_values(|v: VarView| pretty_line(v)), seq!['\n'])
}

/// Keys increase strictly along `p`.
pub open spec fn sorted_by_key(p: Seq<VarView>) -> bool {
    forall|i: int, j: int| 0 <= i < j < p.len() ==> text_less(p[i].key, p[j].key)
}

/// `p` and `s` hold the same entries, as many of them.
pub open spec fn same_entries(p: Seq<VarView>, s: Seq<VarView>) -> bool {
    &&& p.len() == s.len()
    &&& forall|i: int| 0 <= i < p.len() ==> s.contains(#[trigger] p[i])
    &&& forall|i: int| 0 <= i < s.len() ==> p.contains(#[trigger] s[i])
}

/// Line numbers do not decrease along `p`.
pub open spec fn sorted_by_line(p: Seq<VarView>) -> bool {
    forall|i: int, j: int| 0 <= i < j < p.len() ==> p[i].line_number <= p[j].line_number
}

/// `order` lists each of `0..n` exactly once.
pub open spec fn is_order(order: Seq<usize>, n: nat) -> bool {
    &&& order.len() == n
    &&& forall|a: int| 0 <= a < order.len() ==> order[a] < n
    &&& forall|x: usize| x < n ==> #[trigger] order.contains(x)
}

/// The order of `keys` from the smallest to the largest.
fn key_order(keys: &Vec<Vec<char>>) -> (order: Vec<usize>)
    requires
        forall|i: int, j: int|
            0 <= i < keys.len() && 0 <= j < keys.len() && i != j ==> keys@[i]@ != keys@[j]@,
    ensures
        order.len() == keys.len(),
        forall|a: int| 0 <= a < order.len() ==> order@[a] < keys.len(),
        forall|x: usize| x < keys.len() ==> #[trigger] order@.contains(x),
        forall|a: int, b: int|
            0 <= a < b < order.len() ==> text_less(
                keys@[order@[a] as int]@,
                keys@[order@[b] as int]@,
            ),
{
    let mut order: Vec<usize> = Vec::new();
    let mut i: usize = 0;
    while i < keys.len()
        invariant
            i <= keys.len(),
            order.len() == i,
            forall|i: int, j: int|
                0 <= i < keys.len() && 0 <= j < keys.len() && i != j ==> keys@[i]@ != keys@[j]@,
            forall|a: int| 0 <= a < order.len() ==> order@[a] < i,
            forall|x: usize| x < i ==> #[trigger] order@.contains(x),
            forall|a: int, b: int|
                0 <= a < b < order.len() ==> text_less(
                    keys@[order@[a] as int]@,
                    keys@[order@[b] as int]@,
                ),
        decreases keys.len() - i,
    {
        let mut pos: usize = 0;
        while pos < order.len() && !chars_less(&keys[i], &keys[order[pos]])
            invariant
                i < keys.len(),
                pos <= order.len(),
                order.len() == i,
                forall|i: int, j: int|
                    0 <= i < keys.len() && 0 <= j < keys.len() && i != j ==> keys@[i]@
                        != keys@[j]@,
                forall|a: int| 0 <= a < order.len() ==> order@[a] < i,
                forall|m: int| 0 <= m < pos ==> text_less(keys@[order@[m] as int]@, keys@[i as int]@),
            decreases order.len() - pos,
        {
            proof {
                lemma_text_less_total(keys@[order@[pos as int] as int]@, keys@[i as int]@);
            }
            pos = pos + 1;
        }
        let ghost old_order = order@;
        let ghost ki = keys@[i as int]@;
        order.insert(pos, i);
        proof {
            assert forall|a: int, b: int| 0 <= a < b < order.len() implies text_less(
                keys@[order@[a] as int]@,
                keys@[order@[b] as int]@,
            ) by {
                if b < pos {
                    assert(order@[a] == old_order[a] && order@[b] == old_order[b]);
                } else if b == pos {
                    assert(order@[a] == old_order[a]);
                } else if a < pos {
                    assert(order@[a] == old_order[a] && order@[b] == old_order[b - 1]);
                    assert(text_less(keys@[old_order[a] as int]@, ki));
                    if b - 1 == pos {
                    } else {
                        assert(text_less(keys@[old_order[pos as int] as int]@, keys@[old_order[b - 1] as int]@));
                        lemma_text_less_transitive(ki, keys@[old_order[pos as int] as int]@, keys@[old_order[b - 1] as int]@);
                    }
                    lemma_text_less_transitive(keys@[old_order[a] as int]@, ki, keys@[old_order[b - 1] as int]@);
                } else if a == pos {
                    assert(order@[b] == old_order[b - 1]);
                    if b - 1 > pos {
                        assert(text_less(keys@[old_order[pos as int] as int]@, keys@[old_order[b - 1] as int]@));
                        lemma_text_less_transitive(ki, keys@[old_order[pos as int] as int]@, keys@[old_order[b - 1] as int]@);
                    }
                } else {
                    assert(order@[a] == old_order[a - 1] && order@[b] == old_order[b - 1]);
                }
            }
            assert forall|x: usize| x < i + 1 implies #[trigger] order@.contains(x) by {
                if x == i {
                    assert(order@[pos as int] == i);
                } else {
                    assert(old_order.contains(x));
                    let m = choose|m: int| 0 <= m < old_order.len() && old_order[m] == x;
                    if m < pos {
                        assert(order@[m] == x);
                    } else {
                        assert(order@[m + 1] == x);
                    }
                }
            }
        }
        i = i + 1;
    }
    order
}

impl EnvSync {
    /// Keys are pairwise different.
    #[verifier::type_invariant]
    spec fn keys_unique(&self) -> bool {
        unique_keys(views(self.vars@))
    }

    /// Create an empty EnvSync
    pub fn new() -> (r: Self)
        ensures
            r@ == Seq::<VarView>::empty(),
    {
        let r = Self { vars: Vec::new() };
        assert(r@ =~= Seq::<VarView>::empty());
        r
    }

    /// Parse .env content from a string
    ///
    /// Each line is trimmed; blank lines and lines starting with `#` are
    /// skipped; an `export ` prefix is dropped; the first `=` separates the
    /// trimmed key from the trimmed value, from which one pair of matching
    /// quotes is removed. A later line replaces an earlier one of the same
    /// key. A line whose value is a single quote character cannot be parsed:
    /// [`EnvSync::lone_quote_line`] finds it.
    pub fn from_str(content: &str) -> (r: Result<Self, String>)
        requires
            !content_panics(content@),
        ensures
            r matches Ok(e) && e@ == parse_env(content@) && unique_keys(e@),
            r matches Ok(e) && forall|i: int|
                0 <= i < e@.len() ==> 1 <= #[trigger] e@[i].line_number <= split_lines(
                    content@,
                ).len(),
    {
        proof {
            lemma_parse_lines_unique(split_lines(content@));
        }
        match parse_all(content) {
            Ok(vars) => {
                proof {
                    lemma_line_numbers(split_lines(content@));
                }
                Ok(Self { vars })
            },
            Err(_) => {
                assert(false);
                Err(String::new())
            },
        }
    }

    /// Parses `content` as [`EnvSync::from_str`] does, or gives the number
    /// of the first line it cannot parse: one whose value is a single quote
    /// character.
    pub fn try_parse(content: &str) -> (r: Result<Self, usize>)
        ensures
            r is Ok <==> !content_panics(content@),
            r matches Ok(e) ==> e@ == parse_env(content@) && unique_keys(e@),
            r matches Err(n) ==> 1 <= n <= split_lines(content@).len() && line_panics(
                split_lines(content@)[n - 1],
            ),
    {
        match Self::lone_quote_line(content) {
            Some(n) => Err(n),
            None => match Self::from_str(content) {
                Ok(e) => Ok(e),
                Err(_) => Err(0),
            },
        }
    }

    /// The number of the first line on which [`EnvSync::from_str`] cannot
    /// parse `content`, if there is one.
    pub fn lone_quote_line(content: &str) -> (r: Option<usize>)
        ensures
            r is None <==> !content_panics(content@),
            r matches Some(n) ==> 1 <= n <= split_lines(content@).len() && line_panics(
                split_lines(content@)[n - 1],
            ),
    {
        match parse_all(content) {
            Ok(_) => None,
            Err(n) => Some(n),
        }
    }

    /// Get all parsed environment variables
    pub fn vars(&self) -> (r: &Vec<EnvVar>)
        ensures
            views(r@) == self@,
            unique_keys(self@),
    {
        proof {
            use_type_invariant(self);
        }
        &self.vars
    }

    /// Get a specific variable value
    pub fn get(&self, key: &str) -> (r: Option<&str>)
        ensures
            match r {
                Some(v) => has_key(self@, key@) && v@ == lookup(self@, key@).value,
                None => !has_key(self@, key@),
            },
    {
        let k = key.to_owned();
        match find_key(&self.vars, &k) {
            Some(i) => {
                proof {
                    lemma_key_index(self@, key@, i as int);
                }
                Some(self.vars[i].value.as_str())
            },
            None => None,
        }
    }

    /// Compute the diff between this env and another
    pub fn diff(&self, other: &EnvSync) -> (d: EnvDiff)
        ensures
            views(d.added@) == added_vars(self@, other@),
            views(d.removed@) == removed_vars(self@, other@),
            changed_views(d.changed@) == changed_vars(self@, other@),
            views(d.unchanged@) == unchanged_vars(self@, other@),
    {
        let ghost s = self@;
        let ghost o = other@;
        let mut added: Vec<EnvVar> = Vec::new();
        let mut removed: Vec<EnvVar> = Vec::new();
        let mut changed: Vec<ChangedVar> = Vec::new();
        let mut unchanged: Vec<EnvVar> = Vec::new();
        let mut i: usize = 0;
        while i < other.vars.len()
            invariant
                i <= other.vars.len(),
                s == self@,
                o == other@,
                o == views(other.vars@),
                s == views(self.vars@),
                views(added@) == added_vars(s, o.take(i as int)),
                views(unchanged@) == unchanged_vars(s, o.take(i as int)),
                changed_views(changed@) == changed_vars(s, o.take(i as int)),
            decreases other.vars.len() - i,
        {
            proof {
                reveal(Seq::filter);
                assert(o.take(i + 1).drop_last() =~= o.take(i as int));
                assert(o.take(i + 1).last() == o[i as int]);
                assert(o[i as int] == other.vars@[i as int]@);
            }
            let ov = &other.vars[i];
            match find_key(&self.vars, &ov.key) {
                Some(j) => {
                    proof {
                        lemma_key_index(s, ov.key@, j as int);
                        assert(s[j as int] == self.vars@[j as int]@);
                    }
                    if self.vars[j].value == ov.value {
                        unchanged.push(copy_var(ov));
                        assert(views(unchanged@) =~= unchanged_vars(s, o.take(i + 1)));
                        assert(views(added@) =~= added_vars(s, o.take(i + 1)));
                        assert(changed_views(changed@) =~= changed_vars(s, o.take(i + 1)));
                    } else {
                        changed.push(
                            ChangedVar {
                                key: ov.key.clone(),
                                old_value: self.vars[j].value.clone(),
                                new_value: ov.value.clone(),
                            },
                        );
                        assert(views(unchanged@) =~= unchanged_vars(s, o.take(i + 1)));
                        assert(views(added@) =~= added_vars(s, o.take(i + 1)));
                        assert(changed_views(changed@) =~= changed_vars(s, o.take(i + 1)));
                    }
                },
                None => {
                    added.push(copy_var(ov));
                    assert(views(unchanged@) =~= unchanged_vars(s, o.take(i + 1)));
                    assert(views(added@) =~= added_vars(s, o.take(i + 1)));
                    assert(changed_views(changed@) =~= changed_vars(s, o.take(i + 1)));
                },
            }
            i = i + 1;
        }
        assert(o.take(o.len() as int) =~= o);
        let mut i: usize = 0;
        while i < self.vars.len()
            invariant
                i <= self.vars.len(),
                s == views(self.vars@),
                o == views(other.vars@),
                views(removed@) == removed_vars(s.take(i as int), o),
            decreases self.vars.len() - i,
        {
            proof {
                reveal(Seq::filter);
                assert(s.take(i + 1).drop_last() =~= s.take(i as int));
                assert(s.take(i + 1).last() == s[i as int]);
                assert(s[i as int] == self.vars@[i as int]@);
            }
            let sv = &self.vars[i];
            match find_key(&other.vars, &sv.key) {
                Some(j) => {
                    proof {
                        lemma_key_index(o, sv.key@, j as int);
                    }
                    assert(views(removed@) =~= removed_vars(s.take(i + 1), o));
                },
                None => {
                    removed.push(copy_var(sv));
                    assert(views(removed@) =~= removed_vars(s.take(i + 1), o));
                },
            }
            i = i + 1;
        }
        assert(s.take(s.len() as int) =~= s);
        EnvDiff { added, removed, changed, unchanged }
    }

    /// Merge another env into this one. Values from `other` take precedence.
    pub fn merge(&mut self, other: &EnvSync)
        ensures
            final(self)@ == merge_all(old(self)@, other@),
            unique_keys(final(self)@),
    {
        proof {
            use_type_invariant(&*self);
        }
        let ghost b = self@;
        let ghost o = other@;
        let mut vars: Vec<EnvVar> = Vec::new();
        std::mem::swap(&mut vars, &mut self.vars);
        assert(views(vars@) == b);
        let mut i: usize = 0;
        while i < other.vars.len()
            invariant
                i <= other.vars.len(),
                o == views(other.vars@),
                views(vars@) == merge_all(b, o.take(i as int)),
                unique_keys(views(vars@)),
            decreases other.vars.len() - i,
        {
            proof {
                assert(o.take(i + 1).drop_last() =~= o.take(i as int));
                assert(o.take(i + 1).last() == o[i as int]);
                assert(o[i as int] == other.vars@[i as int]@);
            }
            let v = copy_var(&other.vars[i]);
            proof {
                lemma_upsert_unique(views(vars@), v@);
            }
            upsert_var(&mut vars, v);
            i = i + 1;
        }
        self.vars = vars;
        assert(o.take(o.len() as int) =~= o);
    }

    /// Serialize the env vars to .env format string
    ///
    /// The variables appear sorted by key, one `KEY=VALUE` line each.
    pub fn to_string_pretty(&self) -> (r: String)
        ensures
            exists|p: Seq<VarView>|
                sorted_by_key(p) && same_entries(p, self@) && r@ == render(p),
    {
        let ghost s = self@;
        let order = self.key_sorted();
        let ghost p = order@.map_values(|j: usize| s[j as int]);
        let mut lines: Vec<String> = Vec::new();
        let mut t: usize = 0;
        while t < order.len()
            invariant
                t <= order.len(),
                order.len() == s.len(),
                s == views(self.vars@),
                forall|a: int| 0 <= a < order.len() ==> order@[a] < s.len(),
                p == order@.map_values(|j: usize| s[j as int]),
                lines.len() == t,
                forall|a: int| 0 <= a < t ==> (#[trigger] lines@[a])@ == pretty_line(p[a]),
            decreases order.len() - t,
        {
            let idx = order[t];
            assert(s[idx as int] == self.vars@[idx as int]@);
            let mut line = self.vars[idx].key.clone();
            push_char(&mut line, '=');
            let q = Self::quote_value(self.vars[idx].value.as_str());
            line.append(q.as_str());
            lines.push(line);
            t = t + 1;
        }
        let sep = "\n";
        proof {
            reveal_strlit("\n");
        }
        let r = join_strings(&lines, sep);
        proof {
            assert(sep@ =~= seq!['\n']);
            assert(lines@.map_values(|x: String| x@) =~= p.map_values(|v: VarView| pretty_line(v)));
            assert forall|a: int, b: int| 0 <= a < b < p.len() implies text_less(p[a].key, p[b].key) by {
                assert(p[a] == s[order@[a] as int]);
                assert(p[b] == s[order@[b] as int]);
            }
            assert forall|a: int| 0 <= a < p.len() implies s.contains(#[trigger] p[a]) by {
                assert(s[order@[a] as int] == p[a]);
            }
            assert forall|a: int| 0 <= a < s.len() implies p.contains(#[trigger] s[a]) by {
                assert(order@.contains(a as usize));
                let m = choose|m: int| 0 <= m < order.len() && order@[m] == a as usize;
                assert(p[m] == s[a]);
            }
            assert(sorted_by_key(p) && same_entries(p, s));
        }
        r
    }

    /// The positions of the variables, ordered by key.
    fn key_sorted(&self) -> (order: Vec<usize>)
        ensures
            is_order(order@, self@.len()),
            forall|a: int, b: int|
                0 <= a < b < order.len() ==> text_less(
                    self@[order@[a] as int].key,
                    self@[order@[b] as int].key,
                ),
    {
        proof {
            use_type_invariant(self);
        }
        let ghost s = self@;
        let mut keys: Vec<Vec<char>> = Vec::new();
        let mut i: usize = 0;
        while i < self.vars.len()
            invariant
                i <= self.vars.len(),
                s == views(self.vars@),
                keys.len() == i,
                forall|j: int| 0 <= j < i ==> keys@[j]@ == s[j].key,
            decreases self.vars.len() - i,
        {
            assert(s[i as int] == self.vars@[i as int]@);
            keys.push(chars_of(self.vars[i].key.as_str()));
            i = i + 1;
        }
        assert forall|a: int, b: int|
            0 <= a < keys.len() && 0 <= b < keys.len() && a != b implies keys@[a]@ != keys@[b]@ by {
            assert(keys@[a]@ == s[a].key);
            assert(keys@[b]@ == s[b].key);
        }
        let order = key_order(&keys);
        assert forall|a: int, b: int| 0 <= a < b < order.len() implies text_less(
            s[order@[a] as int].key,
            s[order@[b] as int].key,
        ) by {
            assert(keys@[order@[a] as int]@ == s[order@[a] as int].key);
            assert(keys@[order@[b] as int]@ == s[order@[b] as int].key);
        }
        order
    }

    /// The positions of the variables, ordered by line number; variables on
    /// the same line number keep their order.
    fn line_sorted(&self) -> (order: Vec<usize>)
        ensures
            is_order(order@, self@.len()),
            forall|a: int, b: int|
                0 <= a < b < order.len() ==> self@[order@[a] as int].line_number
                    <= self@[order@[b] as int].line_number,
    {
        let ghost s = self@;
        let mut order: Vec<usize> = Vec::new();
        let mut i: usize = 0;
        while i < self.vars.len()
            invariant
                i <= self.vars.len(),
                s == views(self.vars@),
                order.len() == i,
                forall|a: int| 0 <= a < order.len() ==> order@[a] < i,
                forall|x: usize| x < i ==> #[trigger] order@.contains(x),
                forall|a: int, b: int|
                    0 <= a < b < order.len() ==> s[order@[a] as int].line_number
                        <= s[order@[b] as int].line_number,
            decreases self.vars.len() - i,
        {
            let li = self.vars[i].line_number;
            assert(s[i as int].line_number == li);
            let mut pos: usize = 0;
            while pos < order.len() && self.vars[order[pos]].line_number <= li
                invariant
                    i < self.vars.len(),
                    pos <= order.len(),
                    order.len() == i,
                    s == views(self.vars@),
                    s[i as int].line_number == li,
                    forall|a: int| 0 <= a < order.len() ==> order@[a] < i,
                    forall|m: int| 0 <= m < pos ==> s[order@[m] as int].line_number <= li,
                decreases order.len() - pos,
            {
                assert(s[order@[pos as int] as int] == self.vars@[order@[pos as int] as int]@);
                pos = pos + 1;
            }
            proof {
                if pos < order.len() {
                    assert(s[order@[pos as int] as int] == self.vars@[order@[pos as int] as int]@);
                }
            }
            let ghost old_order = order@;
            order.insert(pos, i);
            proof {
                assert forall|a: int, b: int| 0 <= a < b < order.len() implies s[order@[a] as int].line_number
                    <= s[order@[b] as int].line_number by {
                    if b < pos {
                        assert(order@[a] == old_order[a] && order@[b] == old_order[b]);
                    } else if b == pos {
                        assert(order@[a] == old_order[a]);
                    } else if a < pos {
                        assert(order@[a] == old_order[a] && order@[b] == old_order[b - 1]);
                        assert(s[old_order[pos as int] as int].line_number <= s[old_order[b - 1] as int].line_number);
                    } else if a == pos {
                        assert(order@[b] == old_order[b - 1]);
                        assert(s[old_order[pos as int] as int].line_number <= s[old_order[b - 1] as int].line_number);
                    } else {
                        assert(order@[a] == old_order[a - 1] && order@[b] == old_order[b - 1]);
                    }
                }
                assert forall|x: usize| x < i + 1 implies #[trigger] order@.contains(x) by {
                    if x == i {
                        assert(order@[pos as int] == i);
                    } else {
                        assert(old_order.contains(x));
                        let m = choose|m: int| 0 <= m < old_order.len() && old_order[m] == x;
                        if m < pos {
                            assert(order@[m] == x);
                        } else {
                            assert(order@[m + 1] == x);
                        }
                    }
                }
            }
            i = i + 1;
        }
        order
    }

    /// Copies of the variables in the given order.
    fn pick(&self, order: &Vec<usize>) -> (r: Vec<EnvVar>)
        requires
            is_order(order@, self@.len()),
        ensures
            views(r@) == order@.map_values(|x: usize| self@[x as int]),
    {
        let ghost s = self@;
        let mut r: Vec<EnvVar> = Vec::new();
        let mut t: usize = 0;
        while t < order.len()
            invariant
                t <= order.len(),
                is_order(order@, s.len()),
                s == views(self.vars@),
                views(r@) == order@.map_values(|x: usize| s[x as int]).take(t as int),
            decreases order.len() - t,
        {
            let j = order[t];
            let ghost m = order@.map_values(|x: usize| s[x as int]);
            assert(s[j as int] == self.vars@[j as int]@);
            assert(m[t as int] == s[j as int]);
            assert(m.take(t + 1) =~= m.take(t as int).push(s[j as int]));
            r.push(copy_var(&self.vars[j]));
            assert(views(r@) =~= order@.map_values(|x: usize| s[x as int]).take(t + 1));
            t = t + 1;
        }
        assert(order@.map_values(|x: usize| s[x as int]).take(order.len() as int) =~= order@.map_values(|x: usize| s[x as int]));
        r
    }

    /// The variables ordered by key, or else by line number (variables on the
    /// same line number keep their order).
    pub fn sorted_vars(&self, by_key: bool) -> (r: Vec<EnvVar>)
        ensures
            same_entries(views(r@), self@),
            by_key ==> sorted_by_key(views(r@)),
            !by_key ==> sorted_by_line(views(r@)),
    {
        let ghost s = self@;
        let order = if by_key {
            self.key_sorted()
        } else {
            self.line_sorted()
        };
        let r = self.pick(&order);
        let ghost p = views(r@);
        assert(p == order@.map_values(|x: usize| s[x as int]));
        proof {
            assert forall|a: int| 0 <= a < p.len() implies s.contains(#[trigger] p[a]) by {
                assert(s[order@[a] as int] == p[a]);
            }
            assert forall|a: int| 0 <= a < s.len() implies p.contains(#[trigger] s[a]) by {
                assert(order@.contains(a as usize));
                let m = choose|m: int| 0 <= m < order.len() && order@[m] == a as usize;
                assert(p[m] == s[a]);
            }
            if by_key {
                assert forall|a: int, b: int| 0 <= a < b < p.len() implies text_less(p[a].key, p[b].key) by {
                    assert(p[a] == s[order@[a] as int]);
                    assert(p[b] == s[order@[b] as int]);
                }
            } else {
                assert forall|a: int, b: int| 0 <= a < b < p.len() implies p[a].line_number <= p[b].line_number by {
                    assert(p[a] == s[order@[a] as int]);
                    assert(p[b] == s[order@[b] as int]);
                }
            }
        }
        r
    }

    /// Remove quotes from a value: `None` when the trimmed value is a single
    /// quote character, which has no inside to keep.
    fn unquote(value: &str) -> (r: Option<String>)
        ensures
            r is None <==> lone_quote(value@),
            r matches Some(u) ==> u@ == unquoted(value@),
    {
        let chars = chars_of(value);
        let (a, b) = trim_range(&chars, 0, chars.len());
        assert(chars@.subrange(0, chars.len() as int) =~= chars@);
        let ghost t = chars@.subrange(a as int, b as int);
        let quoted = a < b && ((chars[a] == '"' && chars[b - 1] == '"') || (chars[a] == '\''
            && chars[b - 1] == '\''));
        proof {
            if a < b {
                assert(t[0] == chars@[a as int]);
                assert(t.last() == chars@[b - 1]);
            }
            assert(quoted == is_quoted(t));
        }
        if quoted {
            if b - a == 1 {
                return None;
            }
            assert(t.subrange(1, t.len() - 1) =~= chars@.subrange(a + 1, b - 1));
            Some(string_of_range(&chars, a + 1, b - 1))
        } else {
            Some(string_of_range(&chars, a, b))
        }
    }

    /// Quote a value if it contains spaces or special characters
    fn quote_value(value: &str) -> (r: String)
        ensures
            r@ == quoted(value@),
    {
        let chars = chars_of(value);
        if has_char(&chars, ' ') || has_char(&chars, '#') || has_char(&chars, '"') {
            let mut r = String::new();
            push_char(&mut r, '"');
            let mut i: usize = 0;
            while i < chars.len()
                invariant
                    i <= chars.len(),
                    r@ == seq!['"'] + escape_quotes(chars@.take(i as int)),
                decreases chars.len() - i,
            {
                assert(chars@.take(i + 1).drop_last() =~= chars@.take(i as int));
                assert(chars@.take(i + 1).last() == chars@[i as int]);
                if chars[i] == '"' {
                    push_char(&mut r, '\\');
                    push_char(&mut r, '"');
                } else {
                    push_char(&mut r, chars[i]);
                }
                assert(r@ =~= seq!['"'] + escape_quotes(chars@.take(i + 1)));
                i = i + 1;
            }
            push_char(&mut r, '"');
            assert(chars@.take(chars.len() as int) =~= chars@);
            assert(r@ =~= seq!['"'] + escape_quotes(chars@) + seq!['"']);
            r
        } else {
            string_of_chars(&chars)
        }
    }
}


// ---------------------------------------------------------------------------
// Laws
// ---------------------------------------------------------------------------

/// A filter whose predicate holds everywhere keeps the whole sequence.
pub proof fn lemma_filter_all<A>(s: Seq<A>, p: spec_fn(A) -> bool)
    requires
        forall|i: int| 0 <= i < s.len() ==> p(#[trigger] s[i]),
    ensures
        s.filter(p) == s,
    decreases s.len(),
{
    reveal(Seq::filter);
    if s.len() > 0 {
        lemma_filter_all(s.drop_last(), p);
        assert(s.drop_last().push(s.last()) =~= s);
    }
}

/// A filter whose predicate holds nowhere keeps nothing.
pub proof fn lemma_filter_none<A>(s: Seq<A>, p: spec_fn(A) -> bool)
    requires
        forall|i: int| 0 <= i < s.len() ==> !p(#[trigger] s[i]),
    ensures
        s.filter(p) == Seq::<A>::empty(),
    decreases s.len(),
{
    reveal(Seq::filter);
    if s.len() > 0 {
        lemma_filter_none(s.drop_last(), p);
    }
}

/// No changes are reported where no entry differs.
proof fn lemma_no_changes(base: Seq<VarView>, s: Seq<VarView>)
    requires
        forall|i: int| 0 <= i < s.len() ==> change_of(base, #[trigger] s[i]) is None,
    ensures
        changed_vars(base, s) == Seq::<ChangedView>::empty(),
    decreases s.len(),
{
    if s.len() > 0 {
        lemma_no_changes(base, s.drop_last());
    }
}

/// The entry that a key maps to in the map view.
proof fn lemma_env_map_lookup(s: Seq<VarView>, k: Seq<char>)
    ensures
        env_map(s).dom().contains(k) == has_key(s, k),
        has_key(s, k) ==> env_map(s)[k] == lookup(s, k),
{
}

/// Dropping the last entry keeps keys unique.
proof fn lemma_unique_drop_last(s: Seq<VarView>)
    requires
        unique_keys(s),
        s.len() > 0,
    ensures
        unique_keys(s.drop_last()),
        !has_key(s.drop_last(), s.last().key),
        upsert(s.drop_last(), s.last()) == s,
{
    let t = s.drop_last();
    if has_key(t, s.last().key) {
        let w = choose|i: int| 0 <= i < t.len() && (#[trigger] t[i]).key == s.last().key;
        assert(s[w].key == s[s.len() - 1].key);
    }
    assert(t.push(s.last()) =~= s);
}

/// Merging lets `other`'s values take precedence: the merged map is the
/// base map updated with every entry of `other`.
pub proof fn lemma_merge_prefers_other(base: Seq<VarView>, other: Seq<VarView>)
    requires
        unique_keys(base),
        unique_keys(other),
    ensures
        unique_keys(merge_all(base, other)),
        env_map(merge_all(base, other)) == env_map(base).union_prefer_right(env_map(other)),
    decreases other.len(),
{
    if other.len() == 0 {
        assert(env_map(other) =~= Map::<Seq<char>, VarView>::empty());
        assert(env_map(base).union_prefer_right(env_map(other)) =~= env_map(base));
    } else {
        let rest = other.drop_last();
        let v = other.last();
        lemma_unique_drop_last(other);
        lemma_merge_prefers_other(base, rest);
        let m = merge_all(base, rest);
        lemma_upsert_unique(m, v);
        lemma_upsert_map(m, v);
        lemma_upsert_map(rest, v);
        assert(env_map(base).union_prefer_right(env_map(rest).insert(v.key, v)) =~= env_map(
            base,
        ).union_prefer_right(env_map(rest)).insert(v.key, v));
    }
}

/// After merging `other` in, diffing against `other` finds nothing to add
/// or change: every variable of `other` is unchanged.
pub proof fn lemma_merge_then_diff(base: Seq<VarView>, other: Seq<VarView>)
    requires
        unique_keys(base),
        unique_keys(other),
    ensures
        added_vars(merge_all(base, other), other) == Seq::<VarView>::empty(),
        changed_vars(merge_all(base, other), other) == Seq::<ChangedView>::empty(),
        unchanged_vars(merge_all(base, other), other) == other,
{
    let m = merge_all(base, other);
    lemma_merge_prefers_other(base, other);
    assert forall|i: int| 0 <= i < other.len() implies has_key(m, (#[trigger] other[i]).key)
        && lookup(m, other[i].key) == other[i] by {
        let k = other[i].key;
        lemma_unique_index(other, i);
        lemma_env_map_lookup(other, k);
        lemma_env_map_lookup(m, k);
        assert(env_map(m).dom().contains(k));
    }
    lemma_filter_none(other, |v: VarView| !has_key(m, v.key));
    lemma_filter_all(
        other,
        |v: VarView| has_key(m, v.key) && lookup(m, v.key).value == v.value,
    );
    lemma_no_changes(m, other);
}

/// Diffing an env against itself finds every variable unchanged.
pub proof fn lemma_diff_self(s: Seq<VarView>)
    requires
        unique_keys(s),
    ensures
        added_vars(s, s) == Seq::<VarView>::empty(),
        removed_vars(s, s) == Seq::<VarView>::empty(),
        changed_vars(s, s) == Seq::<ChangedView>::empty(),
        unchanged_vars(s, s) == s,
{
    assert forall|i: int| 0 <= i < s.len() implies has_key(s, (#[trigger] s[i]).key) && lookup(
        s,
        s[i].key,
    ) == s[i] by {
        lemma_unique_index(s, i);
    }
    lemma_filter_none(s, |v: VarView| !has_key(s, v.key));
    lemma_filter_all(s, |v: VarView| has_key(s, v.key) && lookup(s, v.key).value == v.value);
    lemma_no_changes(s, s);
}

/// Every variable of `other` is reported exactly once: as added, changed or
/// unchanged.
pub proof fn lemma_diff_covers_other(base: Seq<VarView>, other: Seq<VarView>)
    ensures
        added_vars(base, other).len() + changed_vars(base, other).len() + unchanged_vars(
            base,
            other,
        ).len() == other.len(),
    decreases other.len(),
{
    reveal(Seq::filter);
    if other.len() > 0 {
        lemma_diff_covers_other(base, other.drop_last());
    }
}

/// Line `i` defines key `k`.
pub open spec fn defines(lines: Seq<Seq<char>>, i: int, k: Seq<char>) -> bool {
    parse_line(lines[i], (i + 1) as usize) matches Some(v) && v.key == k
}

/// A later definition of a key replaces every earlier one: the variable
/// parsed for `k` is the one its last defining line gives.
pub proof fn lemma_last_definition_wins(lines: Seq<Seq<char>>, k: Seq<char>, i: int)
    requires
        0 <= i < lines.len(),
        defines(lines, i, k),
        forall|j: int| i < j < lines.len() ==> !defines(lines, j, k),
    ensures
        has_key(parse_lines(lines), k),
        Some(lookup(parse_lines(lines), k)) == parse_line(lines[i], (i + 1) as usize),
    decreases lines.len(),
{
    let rest = lines.drop_last();
    let prev = parse_lines(rest);
    lemma_parse_lines_unique(rest);
    lemma_env_map_lookup(parse_lines(lines), k);
    lemma_env_map_lookup(prev, k);
    let n = lines.len() - 1;
    if i == n {
        let v = parse_line(lines.last(), lines.len() as usize).unwrap();
        lemma_upsert_map(prev, v);
    } else {
        assert forall|j: int| i < j < rest.len() implies !defines(rest, j, k) by {
            assert(rest[j] == lines[j]);
            assert(!defines(lines, j, k));
        }
        assert(rest[i] == lines[i]);
        lemma_last_definition_wins(rest, k, i);
        assert(!defines(lines, n, k));
        match parse_line(lines.last(), lines.len() as usize) {
            Some(w) => {
                lemma_upsert_map(prev, w);
            },
            None => {},
        }
    }
}

/// A key that no line defines is absent.
pub proof fn lemma_undefined_key_absent(lines: Seq<Seq<char>>, k: Seq<char>)
    requires
        forall|j: int| 0 <= j < lines.len() ==> !defines(lines, j, k),
    ensures
        !has_key(parse_lines(lines), k),
    decreases lines.len(),
{
    if lines.len() > 0 {
        let rest = lines.drop_last();
        assert forall|j: int| 0 <= j < rest.len() implies !defines(rest, j, k) by {
            assert(rest[j] == lines[j]);
            assert(!defines(lines, j, k));
        }
        lemma_undefined_key_absent(rest, k);
        let prev = parse_lines(rest);
        lemma_parse_lines_unique(rest);
        lemma_env_map_lookup(parse_lines(lines), k);
        lemma_env_map_lookup(prev, k);
        assert(!defines(lines, lines.len() - 1, k));
        match parse_line(lines.last(), lines.len() as usize) {
            Some(w) => {
                lemma_upsert_map(prev, w);
            },
            None => {},
        }
    }
}


/// Two key-sorted sequences with the same elements are the same sequence.
proof fn lemma_sorted_same_elements(p: Seq<VarView>, q: Seq<VarView>)
    requires
        sorted_by_key(p),
        sorted_by_key(q),
        p.len() == q.len(),
        forall|x: VarView| p.contains(x) <==> q.contains(x),
    ensures
        p == q,
    decreases p.len(),
{
    if p.len() > 0 {
        assert(p.contains(p[0]));
        let j = choose|j: int| 0 <= j < q.len() && q[j] == p[0];
        assert(q.contains(q[0]));
        let i = choose|i: int| 0 <= i < p.len() && p[i] == q[0];
        if j > 0 {
            assert(text_less(q[0].key, p[0].key));
            if i == 0 {
                lemma_text_less_irreflexive(q[0].key);
            } else {
                assert(text_less(p[0].key, q[0].key));
                lemma_text_less_transitive(p[0].key, q[0].key, p[0].key);
                lemma_text_less_irreflexive(p[0].key);
            }
        }
        let pt = p.drop_first();
        let qt = q.drop_first();
        assert forall|x: VarView| pt.contains(x) <==> qt.contains(x) by {
            if pt.contains(x) {
                let a = choose|a: int| 0 <= a < pt.len() && pt[a] == x;
                assert(p[a + 1] == x);
                assert(text_less(p[0].key, x.key));
                assert(q.contains(x));
                let b = choose|b: int| 0 <= b < q.len() && q[b] == x;
                if b == 0 {
                    lemma_text_less_irreflexive(x.key);
                }
                assert(qt[b - 1] == x);
            }
            if qt.contains(x) {
                let a = choose|a: int| 0 <= a < qt.len() && qt[a] == x;
                assert(q[a + 1] == x);
                assert(text_less(q[0].key, x.key));
                assert(p.contains(x));
                let b = choose|b: int| 0 <= b < p.len() && p[b] == x;
                if b == 0 {
                    lemma_text_less_irreflexive(x.key);
                }
                assert(pt[b - 1] == x);
            }
        }
        lemma_sorted_same_elements(pt, qt);
        assert(p =~= seq![p[0]] + pt);
        assert(q =~= seq![q[0]] + qt);
    }
}

/// The written form of an env is determined: any two key-sorted
/// arrangements of its entries are the same, so `to_string_pretty` has
/// exactly one possible result.
pub proof fn lemma_pretty_order_unique(p: Seq<VarView>, q: Seq<VarView>, s: Seq<VarView>)
    requires
        sorted_by_key(p),
        sorted_by_key(q),
        same_entries(p, s),
        same_entries(q, s),
    ensures
        p == q,
        render(p) == render(q),
{
    assert forall|x: VarView| p.contains(x) <==> q.contains(x) by {
        if p.contains(x) {
            let a = choose|a: int| 0 <= a < p.len() && p[a] == x;
            assert(s.contains(p[a]));
            let b = choose|b: int| 0 <= b < s.len() && s[b] == x;
            assert(q.contains(s[b]));
        }
        if q.contains(x) {
            let a = choose|a: int| 0 <= a < q.len() && q[a] == x;
            assert(s.contains(q[a]));
            let b = choose|b: int| 0 <= b < s.len() && s[b] == x;
            assert(p.contains(s[b]));
        }
    }
    lemma_sorted_same_elements(p, q);
}


/// What a diff from `a` to `b` reports as added, the diff from `b` to `a`
/// reports as removed, in the same order.
pub proof fn lemma_diff_swap(a: Seq<VarView>, b: Seq<VarView>)
    ensures
        added_vars(a, b) == removed_vars(b, a),
{
}

/// Merging the same env a second time changes nothing more.
pub proof fn lemma_merge_idempotent(base: Seq<VarView>, other: Seq<VarView>)
    requires
        unique_keys(base),
        unique_keys(other),
    ensures
        env_map(merge_all(merge_all(base, other), other)) == env_map(merge_all(base, other)),
{
    lemma_merge_prefers_other(base, other);
    lemma_merge_prefers_other(merge_all(base, other), other);
    let m = env_map(base).union_prefer_right(env_map(other));
    assert(m.union_prefer_right(env_map(other)) =~= m);
}


/// Every parsed variable records the number of the line that defined it:
/// between 1 and the number of lines.
pub proof fn lemma_line_numbers(lines: Seq<Seq<char>>)
    requires
        lines.len() <= usize::MAX,
    ensures
        forall|i: int|
            0 <= i < parse_lines(lines).len() ==> 1 <= #[trigger] parse_lines(lines)[i].line_number
                <= lines.len(),
    decreases lines.len(),
{
    if lines.len() > 0 {
        lemma_line_numbers(lines.drop_last());
        let prev = parse_lines(lines.drop_last());
        match parse_line(lines.last(), lines.len() as usize) {
            Some(v) => {
                let u = upsert(prev, v);
                assert(v.line_number == lines.len());
                if has_key(prev, v.key) {
                    lemma_has_key_first(prev, v.key);
                    let idx = key_index(prev, v.key);
                    assert forall|i: int| 0 <= i < u.len() implies 1 <= #[trigger] u[i].line_number
                        <= lines.len() by {
                        if i != idx {
                            assert(u[i] == prev[i]);
                        }
                    }
                } else {
                    assert forall|i: int| 0 <= i < u.len() implies 1 <= #[trigger] u[i].line_number
                        <= lines.len() by {
                        if i < prev.len() {
                            assert(u[i] == prev[i]);
                        }
                    }
                }
            },
            None => {},
        }
    }
}


/// A line whose first character other than whitespace is `#` is a comment:
/// it defines no variable, and reading it cannot fail.
pub proof fn lemma_comment_line_defines_nothing(line: Seq<char>, i: int, n: usize)
    requires
        0 <= i < line.len(),
        forall|j: int| 0 <= j < i ==> white_space(#[trigger] line[j]),
        line[i] == '#',
    ensures
        parse_line(line, n) is None,
        !line_panics(line),
{
    assert(!white_space('#'));
    lemma_trim_first(line, i);
}

/// An `export ` in front of a line changes nothing of what it defines.
pub proof fn lemma_export_prefix_ignored(l: Seq<char>)
    requires
        trim(l).len() > 0,
        trim(l)[0] != '#',
        !has_prefix(trim(l), export_word()),
    ensures
        line_fields(export_word() + l) == line_fields(l),
{
    let e = export_word();
    lemma_trim_start_skip(l);
    let a = choose|a: int|
        0 <= a <= l.len() && trim_start(l) == l.skip(a) && (forall|k: int|
            0 <= k < a ==> white_space(#[trigger] l[k])) && (a < l.len() ==> !white_space(l[a]));
    lemma_trim_end_take(l);
    let b = choose|b: int|
        0 <= b <= l.len() && trim_end(l) == l.take(b) && (forall|k: int|
            b <= k < l.len() ==> white_space(#[trigger] l[k])) && (b > 0 ==> !white_space(l[b - 1]));
    lemma_trim_empty(l);
    if a == l.len() {
        assert(trim_start(l).len() == 0);
        assert(trim(l).len() == 0);
    }
    if b == 0 || b <= a {
        assert(white_space(l[a]));
    }
    lemma_trim_bounds(l, a, b);
    let x = e + l;
    assert forall|k: int| 7 + b <= k < x.len() implies white_space(#[trigger] x[k]) by {
        assert(x[k] == l[k - 7]);
    }
    assert(x[0] == 'e');
    assert(x[6 + b] == l[b - 1]);
    lemma_trim_bounds(x, 0, 7 + b);
    let t = trim(x);
    assert(t =~= e + l.take(b));
    assert(t.take(7) =~= e);
    assert(t.skip(7) =~= l.take(b));
    let lb = l.take(b);
    assert forall|k: int| 0 <= k < a implies white_space(#[trigger] lb[k]) by {
        assert(lb[k] == l[k]);
    }
    assert(lb[a] == l[a]);
    assert(lb[b - 1] == l[b - 1]);
    lemma_trim_bounds(lb, a, b);
    assert(lb.subrange(a, b) =~= l.subrange(a, b));
}

/// A value in matching quotes reads as the text between them.
pub proof fn lemma_quoted_value_unquotes(inner: Seq<char>, q: char)
    requires
        q == '"' || q == '\'',
    ensures
        unquoted(seq![q] + inner + seq![q]) == inner,
{
    let v = seq![q] + inner + seq![q];
    assert(v[0] == q);
    assert(v[v.len() - 1] == q);
    lemma_trim_bounds(v, 0, v.len() as int);
    assert(v.subrange(0, v.len() as int) =~= v);
    assert(v.subrange(1, v.len() - 1) =~= inner);
}

/// Escaping works character by character: each `"` becomes `\"` and every
/// other character stays as it is.
pub proof fn lemma_escape_quotes_pieces(a: Seq<char>, b: Seq<char>)
    ensures
        escape_quotes(a + b) == escape_quotes(a) + escape_quotes(b),
        escape_quotes(seq!['"']) == seq!['\\', '"'],
        forall|c: char| c != '"' ==> escape_quotes(seq![c]) == seq![c],
    decreases b.len(),
{
    assert(escape_quotes(Seq::<char>::empty()) == Seq::<char>::empty());
    assert(seq!['"'].drop_last() =~= Seq::<char>::empty());
    assert(seq!['"'].last() == '"');
    assert(Seq::<char>::empty() + seq!['\\', '"'] =~= seq!['\\', '"']);
    assert forall|c: char| c != '"' implies escape_quotes(seq![c]) == seq![c] by {
        assert(seq![c].drop_last() =~= Seq::<char>::empty());
        assert(seq![c].last() == c);
        assert(Seq::<char>::empty().push(c) =~= seq![c]);
    }
    if b.len() == 0 {
        assert(a + b =~= a);
        assert(escape_quotes(a) + escape_quotes(b) =~= escape_quotes(a));
    } else {
        lemma_escape_quotes_pieces(a, b.drop_last());
        assert((a + b).drop_last() =~= a + b.drop_last());
        assert((a + b).last() == b.last());
        if b.last() == '"' {
            assert(escape_quotes(a) + escape_quotes(b) =~= escape_quotes(a) + escape_quotes(
                b.drop_last(),
            ) + seq!['\\', '"']);
        } else {
            assert(escape_quotes(a) + escape_quotes(b) =~= (escape_quotes(a) + escape_quotes(
                b.drop_last(),
            )).push(b.last()));
        }
    }
}

/// A value without spaces, `#` or `"` is written as it is; any other is
/// written between double quotes.
pub proof fn lemma_quoting_needed(v: Seq<char>)
    ensures
        !v.contains(' ') && !v.contains('#') && !v.contains('"') ==> quoted(v) == v,
        v.contains(' ') || v.contains('#') || v.contains('"') ==> quoted(v).len() >= 2 && quoted(
            v,
        )[0] == '"' && quoted(v).last() == '"',
{
}

/// Every parsed variable is exactly what the line it records gives.
pub proof fn lemma_parsed_var_from_its_line(lines: Seq<Seq<char>>)
    requires
        lines.len() <= usize::MAX,
    ensures
        forall|idx: int|
            0 <= idx < parse_lines(lines).len() ==> {
                let v = #[trigger] parse_lines(lines)[idx];
                &&& 1 <= v.line_number <= lines.len()
                &&& parse_line(lines[v.line_number - 1], v.line_number) == Some(v)
            },
    decreases lines.len(),
{
    if lines.len() > 0 {
        let rest = lines.drop_last();
        lemma_parsed_var_from_its_line(rest);
        let prev = parse_lines(rest);
        let n = lines.len();
        assert forall|idx: int| 0 <= idx < prev.len() implies {
            let v = #[trigger] prev[idx];
            &&& 1 <= v.line_number <= n
            &&& parse_line(lines[v.line_number - 1], v.line_number) == Some(v)
        } by {
            let v = prev[idx];
            assert(rest[v.line_number - 1] == lines[v.line_number - 1]);
        }
        match parse_line(lines.last(), n as usize) {
            Some(v) => {
                let u = upsert(prev, v);
                assert(v.line_number == n);
                assert(lines[v.line_number - 1] == lines.last());
                if has_key(prev, v.key) {
                    lemma_has_key_first(prev, v.key);
                    let at = key_index(prev, v.key);
                    assert forall|idx: int| 0 <= idx < u.len() implies {
                        let w = #[trigger] u[idx];
                        &&& 1 <= w.line_number <= n
                        &&& parse_line(lines[w.line_number - 1], w.line_number) == Some(w)
                    } by {
                        if idx != at {
                            assert(u[idx] == prev[idx]);
                        }
                    }
                } else {
                    assert forall|idx: int| 0 <= idx < u.len() implies {
                        let w = #[trigger] u[idx];
                        &&& 1 <= w.line_number <= n
                        &&& parse_line(lines[w.line_number - 1], w.line_number) == Some(w)
                    } by {
                        if idx < prev.len() {
                            assert(u[idx] == prev[idx]);
                        }
                    }
                }
            },
            None => {},
        }
    }
}

/// No parsed variable comes from a comment line: the first character other
/// than whitespace of the line it records is never `#`.
pub proof fn lemma_no_variable_from_comment(lines: Seq<Seq<char>>, idx: int, i: int)
    requires
        lines.len() <= usize::MAX,
        0 <= idx < parse_lines(lines).len(),
        ({
            let line = lines[parse_lines(lines)[idx].line_number - 1];
            0 <= i < line.len() && forall|j: int| 0 <= j < i ==> white_space(#[trigger] line[j])
        }),
    ensures
        lines[parse_lines(lines)[idx].line_number - 1][i] != '#',
{
    lemma_parsed_var_from_its_line(lines);
    let v = parse_lines(lines)[idx];
    let line = lines[v.line_number - 1];
    if line[i] == '#' {
        lemma_comment_line_defines_nothing(line, i, v.line_number);
    }
}

/// A key occurs in a filtered sequence exactly when an entry with that key
/// passes the filter.
proof fn lemma_filter_has_key(s: Seq<VarView>, p: spec_fn(VarView) -> bool, k: Seq<char>)
    ensures
        has_key(s.filter(p), k) <==> exists|i: int|
            0 <= i < s.len() && (#[trigger] s[i]).key == k && p(s[i]),
    decreases s.len(),
{
    reveal(Seq::filter);
    if s.len() > 0 {
        let t = s.drop_last();
        lemma_filter_has_key(t, p, k);
        let f = s.filter(p);
        if has_key(f, k) {
            let w = choose|j: int| 0 <= j < f.len() && (#[trigger] f[j]).key == k;
            if w < t.filter(p).len() {
                assert(f[w] == t.filter(p)[w]);
                assert(has_key(t.filter(p), k));
                let i = choose|i: int| 0 <= i < t.len() && (#[trigger] t[i]).key == k && p(t[i]);
                assert(s[i] == t[i]);
            } else {
                assert(f[w] == s.last());
                assert(s[s.len() - 1].key == k);
            }
        }
        if exists|i: int| 0 <= i < s.len() && (#[trigger] s[i]).key == k && p(s[i]) {
            let i = choose|i: int| 0 <= i < s.len() && (#[trigger] s[i]).key == k && p(s[i]);
            if i < t.len() {
                assert(t[i] == s[i]);
                assert(has_key(t.filter(p), k));
                let w = choose|j: int| 0 <= j < t.filter(p).len() && (#[trigger] t.filter(p)[j]).key == k;
                assert(f[w] == t.filter(p)[w]);
            } else {
                assert(f[f.len() - 1] == s.last());
            }
        }
    }
}

/// A change is reported exactly when some entry of `other` gives it.
proof fn lemma_changed_contains(base: Seq<VarView>, other: Seq<VarView>, c: ChangedView)
    ensures
        changed_vars(base, other).contains(c) <==> exists|i: int|
            0 <= i < other.len() && change_of(base, #[trigger] other[i]) == Some(c),
    decreases other.len(),
{
    if other.len() > 0 {
        let t = other.drop_last();
        lemma_changed_contains(base, t, c);
        let f = changed_vars(base, other);
        let g = changed_vars(base, t);
        match change_of(base, other.last()) {
            Some(x) => {
                assert(f =~= g + seq![x]);
            },
            None => {
                assert(f =~= g);
            },
        }
        if f.contains(c) {
            let w = choose|j: int| 0 <= j < f.len() && f[j] == c;
            if w < g.len() {
                assert(f[w] == g[w]);
                assert(g.contains(c));
                let i = choose|i: int| 0 <= i < t.len() && change_of(base, #[trigger] t[i]) == Some(c);
                assert(other[i] == t[i]);
            } else {
                assert(change_of(base, other[other.len() - 1]) == Some(c));
            }
        }
        if exists|i: int| 0 <= i < other.len() && change_of(base, #[trigger] other[i]) == Some(c) {
            let i = choose|i: int| 0 <= i < other.len() && change_of(base, #[trigger] other[i]) == Some(c);
            if i < t.len() {
                assert(t[i] == other[i]);
                assert(g.contains(c));
                let w = choose|j: int| 0 <= j < g.len() && g[j] == c;
                assert(f[w] == g[w]);
            } else {
                assert(f[f.len() - 1] == c);
            }
        }
    }
}

/// Diffing in the other direction swaps added with removed, keeps the
/// unchanged keys, and swaps the old and new value of every change.
pub proof fn lemma_diff_symmetric(a: Seq<VarView>, b: Seq<VarView>)
    requires
        unique_keys(a),
        unique_keys(b),
    ensures
        added_vars(a, b) == removed_vars(b, a),
        removed_vars(a, b) == added_vars(b, a),
        forall|k: Seq<char>|
            #[trigger] has_key(unchanged_vars(a, b), k) <==> has_key(unchanged_vars(b, a), k),
        forall|k: Seq<char>, o: Seq<char>, n: Seq<char>|
            #[trigger] changed_vars(a, b).contains(ChangedView { key: k, old_value: o, new_value: n })
                <==> changed_vars(b, a).contains(ChangedView { key: k, old_value: n, new_value: o }),
{
    assert forall|k: Seq<char>| #[trigger] has_key(unchanged_vars(a, b), k) <==> has_key(
        unchanged_vars(b, a),
        k,
    ) by {
        let pa = |v: VarView| has_key(a, v.key) && lookup(a, v.key).value == v.value;
        let pb = |v: VarView| has_key(b, v.key) && lookup(b, v.key).value == v.value;
        lemma_filter_has_key(b, pa, k);
        lemma_filter_has_key(a, pb, k);
        if has_key(unchanged_vars(a, b), k) {
            let i = choose|i: int| 0 <= i < b.len() && (#[trigger] b[i]).key == k && pa(b[i]);
            lemma_unique_index(b, i);
            lemma_has_key_first(a, k);
            let j = key_index(a, k);
            lemma_unique_index(a, j);
            assert(a[j].key == k && pb(a[j]));
        }
        if has_key(unchanged_vars(b, a), k) {
            let i = choose|i: int| 0 <= i < a.len() && (#[trigger] a[i]).key == k && pb(a[i]);
            lemma_unique_index(a, i);
            lemma_has_key_first(b, k);
            let j = key_index(b, k);
            lemma_unique_index(b, j);
            assert(b[j].key == k && pa(b[j]));
        }
    }
    assert forall|k: Seq<char>, o: Seq<char>, n: Seq<char>|
        #[trigger] changed_vars(a, b).contains(ChangedView { key: k, old_value: o, new_value: n })
            <==> changed_vars(b, a).contains(ChangedView { key: k, old_value: n, new_value: o }) by {
        let c1 = ChangedView { key: k, old_value: o, new_value: n };
        let c2 = ChangedView { key: k, old_value: n, new_value: o };
        lemma_changed_contains(a, b, c1);
        lemma_changed_contains(b, a, c2);
        if changed_vars(a, b).contains(c1) {
            let i = choose|i: int| 0 <= i < b.len() && change_of(a, #[trigger] b[i]) == Some(c1);
            lemma_unique_index(b, i);
            lemma_has_key_first(a, k);
            let j = key_index(a, k);
            lemma_unique_index(a, j);
            assert(change_of(b, a[j]) == Some(c2));
        }
        if changed_vars(b, a).contains(c2) {
            let i = choose|i: int| 0 <= i < a.len() && change_of(b, #[trigger] a[i]) == Some(c2);
            lemma_unique_index(a, i);
            lemma_has_key_first(b, k);
            let j = key_index(b, k);
            lemma_unique_index(b, j);
            assert(change_of(a, b[j]) == Some(c1));
        }
    }
}


/// A line without a newline, followed by a newline, is split off first.
proof fn lemma_split_first_line(l: Seq<char>, rest: Seq<char>)
    requires
        !l.contains(newline()),
    ensures
        split_lines(l + seq![newline()] + rest) == seq![strip_cr(l)] + split_lines(rest),
{
    let t = l + seq![newline()] + rest;
    assert forall|j: int| 0 <= j < l.len() implies t[j] != newline() by {
        assert(t[j] == l[j]);
        if l[j] == newline() {
            assert(l.contains(newline()));
        }
    }
    assert(t[l.len() as int] == newline());
    lemma_first_at(t, newline(), l.len() as int);
    assert(t.take(l.len() as int) =~= l);
    assert(t.skip(l.len() as int + 1) =~= rest);
}

/// Lines without newlines or final carriage returns, joined by newlines,
/// split back into themselves.
proof fn lemma_split_join(ls: Seq<Seq<char>>)
    requires
        forall|i: int|
            0 <= i < ls.len() ==> (#[trigger] ls[i]).len() > 0 && !ls[i].contains(newline())
                && ls[i].last() != '\r',
    ensures
        split_lines(join(ls, seq![newline()])) == ls,
    decreases ls.len(),
{
    if ls.len() == 0 {
        assert(split_lines(join(ls, seq![newline()])) =~= ls);
    } else if ls.len() == 1 {
        let l = ls[0];
        assert forall|j: int| 0 <= j < l.len() implies l[j] != newline() by {
            if l[j] == newline() {
                assert(l.contains(newline()));
            }
        }
        lemma_first_none(l, newline());
        assert(split_lines(l) =~= seq![l]);
        assert(ls =~= seq![l]);
    } else {
        let rest = ls.drop_first();
        assert forall|i: int| 0 <= i < rest.len() implies (#[trigger] rest[i]).len() > 0
            && !rest[i].contains(newline()) && rest[i].last() != '\r' by {
            assert(rest[i] == ls[i + 1]);
        }
        lemma_split_join(rest);
        lemma_join_first(ls, seq![newline()]);
        lemma_split_first_line(ls[0], join(rest, seq![newline()]));
        assert(ls[0] + seq![newline()] + join(rest, seq![newline()]) =~= ls[0] + seq![newline()]
            + join(rest, seq![newline()]));
        assert(strip_cr(ls[0]) == ls[0]);
        assert(ls =~= seq![ls[0]] + rest);
    }
}

/// The written line of `v`, read on its own, gives back its key and value:
/// it holds no line break, does not end with a carriage return, and its
/// key and value survive trimming and unquoting.
pub open spec fn reads_back(v: VarView) -> bool {
    &&& !pretty_line(v).contains(newline())
    &&& pretty_line(v).last() != '\r'
    &&& line_fields(pretty_line(v)) matches Some(f) && f.0 == v.key && unquoted(f.1) == v.value
        && !lone_quote(f.1)
}

/// The value of each key.
pub open spec fn value_map(s: Seq<VarView>) -> Map<Seq<char>, Seq<char>> {
    Map::new(|k: Seq<char>| has_key(s, k), |k: Seq<char>| lookup(s, k).value)
}

/// Reading back the written text of an env whose every line reads back on
/// its own gives the same value for every key, and parsing it cannot fail.
pub proof fn lemma_written_text_reads_back(s: Seq<VarView>, p: Seq<VarView>)
    requires
        unique_keys(s),
        sorted_by_key(p),
        same_entries(p, s),
        forall|i: int| 0 <= i < s.len() ==> reads_back(#[trigger] s[i]),
    ensures
        !content_panics(render(p)),
        value_map(parse_env(render(p))) == value_map(s),
{
    let ls = p.map_values(|v: VarView| pretty_line(v));
    assert forall|i: int| 0 <= i < p.len() implies reads_back(#[trigger] p[i]) by {
        assert(s.contains(p[i]));
        let j = choose|j: int| 0 <= j < s.len() && s[j] == p[i];
        assert(reads_back(s[j]));
    }
    assert forall|i: int| 0 <= i < ls.len() implies (#[trigger] ls[i]).len() > 0 && !ls[i].contains(
        newline(),
    ) && ls[i].last() != '\r' by {
        assert(ls[i] == pretty_line(p[i]));
        assert(reads_back(p[i]));
        assert(pretty_line(p[i])[p[i].key.len() as int] == '=');
    }
    lemma_split_join(ls);
    assert(split_lines(render(p)) == ls);
    assert forall|i: int| 0 <= i < ls.len() implies parse_line(#[trigger] ls[i], (i + 1) as usize)
        == Some(VarView { key: p[i].key, value: p[i].value, line_number: (i + 1) as usize })
        && !line_panics(ls[i]) by {
        assert(ls[i] == pretty_line(p[i]));
        assert(reads_back(p[i]));
    }
    assert(!content_panics(render(p))) by {
        if content_panics(render(p)) {
            let i = choose|i: int| 0 <= i < ls.len() && line_panics(#[trigger] ls[i]);
            assert(!line_panics(ls[i]));
        }
    }
    let parsed = parse_lines(ls);
    assert forall|k: Seq<char>| #[trigger] has_key(parsed, k) == has_key(s, k) by {
        if has_key(p, k) {
            let i = choose|i: int| 0 <= i < p.len() && (#[trigger] p[i]).key == k;
            assert(parse_line(ls[i], (i + 1) as usize) == Some(VarView { key: p[i].key, value: p[i].value, line_number: (i + 1) as usize }));
            assert(defines(ls, i, k));
            assert forall|j: int| i < j < ls.len() implies !defines(ls, j, k) by {
                assert(parse_line(ls[j], (j + 1) as usize) == Some(VarView { key: p[j].key, value: p[j].value, line_number: (j + 1) as usize }));
                lemma_text_less_irreflexive(k);
                assert(text_less(p[i].key, p[j].key));
            }
            lemma_last_definition_wins(ls, k, i);
        } else {
            assert forall|j: int| 0 <= j < ls.len() implies !defines(ls, j, k) by {
                assert(parse_line(ls[j], (j + 1) as usize) == Some(VarView { key: p[j].key, value: p[j].value, line_number: (j + 1) as usize }));
            }
            lemma_undefined_key_absent(ls, k);
        }
        if has_key(s, k) {
            let j = choose|j: int| 0 <= j < s.len() && (#[trigger] s[j]).key == k;
            assert(p.contains(s[j]));
        }
        if has_key(p, k) {
            let i = choose|i: int| 0 <= i < p.len() && (#[trigger] p[i]).key == k;
            assert(s.contains(p[i]));
        }
    }
    assert forall|k: Seq<char>| has_key(parsed, k) implies #[trigger] lookup(parsed, k).value == lookup(
        s,
        k,
    ).value by {
        assert(has_key(s, k));
        let j0 = choose|j: int| 0 <= j < s.len() && (#[trigger] s[j]).key == k;
        lemma_unique_index(s, j0);
        assert(p.contains(s[j0]));
        let i = choose|i: int| 0 <= i < p.len() && p[i] == s[j0];
        assert(parse_line(ls[i], (i + 1) as usize) == Some(VarView { key: p[i].key, value: p[i].value, line_number: (i + 1) as usize }));
        assert forall|j: int| i < j < ls.len() implies !defines(ls, j, k) by {
            assert(parse_line(ls[j], (j + 1) as usize) == Some(VarView { key: p[j].key, value: p[j].value, line_number: (j + 1) as usize }));
            lemma_text_less_irreflexive(k);
            assert(text_less(p[i].key, p[j].key));
        }
        lemma_last_definition_wins(ls, k, i);
    }
    assert(value_map(parsed) =~= value_map(s));
}

} // verus!

//! Validation of environment variables against per-key rules.
use vstd::prelude::*;
use crate::literal::{
    float_syntax, is_float_syntax, parse_i64, parse_u16, signed_literal, unsigned_literal,
};
use crate::sync::{EnvVar, VarView, find_key, has_key, lemma_key_index, lookup, views};
use crate::text::{
    chars_of, find_char_in, has_char, has_prefix, join, join_strings, lemma_first_at,
    lemma_first_none, lemma_join_first, lemma_split_on_join, lemma_trim_empty, range_has_prefix,
    split_on, trim, trim_range, white_space,
};

verus! {

// ---------------------------------------------------------------------------
// Results
// ---------------------------------------------------------------------------

/// Validation result for a single variable
#[derive(Debug)]
pub struct ValidationResult {
    pub key: String,
    pub valid: bool,
    pub message: Option<String>,
}

/// The mathematical content of a [`ValidationResult`].
pub struct ResultView {
    pub key: Seq<char>,
    pub valid: bool,
    pub message: Option<Seq<char>>,
}

impl View for ValidationResult {
    type V = ResultView;

    open spec fn view(&self) -> ResultView {
        ResultView {
            key: self.key@,
            valid: self.valid,
            message: match self.message {
                Some(m) => Some(m@),
                None => None,
            },
        }
    }
}

/// The views of a sequence of results.
pub open spec fn result_views(s: Seq<ValidationResult>) -> Seq<ResultView> {
    s.map_values(|r: ValidationResult| r@)
}

/// Validation report for an entire .env file
#[derive(Debug)]
pub struct ValidationReport {
    pub results: Vec<ValidationResult>,
}

/// The results that failed.
pub open spec fn failed(s: Seq<ValidationResult>) -> Seq<ValidationResult> {
    s.filter(|r: ValidationResult| !r.valid)
}

impl ValidationReport {
    /// Every result passed.
    pub fn is_valid(&self) -> (r: bool)
        ensures
            r == (forall|i: int| 0 <= i < self.results.len() ==> (#[trigger] self.results@[i]).valid),
    {
        let mut i: usize = 0;
        while i < self.results.len()
            invariant
                i <= self.results.len(),
                forall|j: int| 0 <= j < i ==> (#[trigger] self.results@[j]).valid,
            decreases self.results.len() - i,
        {
            if !self.results[i].valid {
                return false;
            }
            i = i + 1;
        }
        true
    }

    /// The results that failed, in order.
    pub fn errors(&self) -> (r: Vec<&ValidationResult>)
        ensures
            r.len() == failed(self.results@).len(),
            forall|i: int| 0 <= i < r.len() ==> *(#[trigger] r@[i]) == failed(self.results@)[i],
    {
        let ghost s = self.results@;
        let mut r: Vec<&ValidationResult> = Vec::new();
        let mut i: usize = 0;
        while i < self.results.len()
            invariant
                i <= self.results.len(),
                s == self.results@,
                r.len() == failed(s.take(i as int)).len(),
                forall|j: int| 0 <= j < r.len() ==> *(#[trigger] r@[j]) == failed(s.take(i as int))[j],
            decreases self.results.len() - i,
        {
            proof {
                reveal(Seq::filter);
                assert(s.take(i + 1).drop_last() =~= s.take(i as int));
                assert(s.take(i + 1).last() == s[i as int]);
            }
            if !self.results[i].valid {
                r.push(&self.results[i]);
            }
            i = i + 1;
        }
        assert(s.take(s.len() as int) =~= s);
        r
    }
}

// ---------------------------------------------------------------------------
// Rules
// ---------------------------------------------------------------------------

#[derive(Debug, Clone)]
pub enum ValidationRule {
    /// Value must not be empty
    Required,
    /// Value must be a valid integer
    Integer,
    /// Value must be a valid float
    Float,
    /// Value must be a valid URL
    Url,
    /// Value must be a valid email
    Email,
    /// Value must be one of the given options
    OneOf(Vec<String>),
    /// Value must match a prefix
    Prefix(String),
    /// Value must be a valid boolean (true/false/1/0)
    Boolean,
    /// Value must be a valid port number (1-65535)
    Port,
    /// Value must be a valid comma-separated list
    CommaList,
}

/// The mathematical content of a [`ValidationRule`].
pub enum RuleView {
    Required,
    Integer,
    Float,
    Url,
    Email,
    OneOf(Seq<Seq<char>>),
    Prefix(Seq<char>),
    Boolean,
    Port,
    CommaList,
}

impl View for ValidationRule {
    type V = RuleView;

    open spec fn view(&self) -> RuleView {
        match self {
            ValidationRule::Required => RuleView::Required,
            ValidationRule::Integer => RuleView::Integer,
            ValidationRule::Float => RuleView::Float,
            ValidationRule::Url => RuleView::Url,
            ValidationRule::Email => RuleView::Email,
            ValidationRule::OneOf(o) => RuleView::OneOf(o@.map_values(|s: String| s@)),
            ValidationRule::Prefix(p) => RuleView::Prefix(p@),
            ValidationRule::Boolean => RuleView::Boolean,
            ValidationRule::Port => RuleView::Port,
            ValidationRule::CommaList => RuleView::CommaList,
        }
    }
}

/// The lowercase form of a text, as `str::to_lowercase` computes it.
pub uninterp spec fn lowercase(s: Seq<char>) -> Seq<char>;

/// Calls `str::to_lowercase`; the contract only ties the result to the name
/// `lowercase`, leaving the Unicode case mapping unsaid.
#[verifier::external_body]
pub(crate) fn to_lowercase(s: &str) -> (r: String)
    ensures
        r@ == lowercase(s@),
{
    s.to_lowercase()
}

/// The uppercase form of a text, as `str::to_uppercase` computes it.
pub uninterp spec fn uppercase(s: Seq<char>) -> Seq<char>;

/// Calls `str::to_uppercase`; the contract only ties the result to the name
/// `uppercase`, leaving the Unicode case mapping unsaid.
#[verifier::external_body]
pub(crate) fn to_uppercase(s: &str) -> (r: String)
    ensures
        r@ == uppercase(s@),
{
    s.to_uppercase()
}

/// `http://`
pub open spec fn http_scheme() -> Seq<char> {
    seq!['h', 't', 't', 'p', ':', '/', '/']
}

/// `https://`
pub open spec fn https_scheme() -> Seq<char> {
    seq!['h', 't', 't', 'p', 's', ':', '/', '/']
}

/// The words that count as a boolean, once lowercased.
pub open spec fn boolean_word(w: Seq<char>) -> bool {
    ||| w == seq!['t', 'r', 'u', 'e']
    ||| w == seq!['f', 'a', 'l', 's', 'e']
    ||| w == seq!['1']
    ||| w == seq!['0']
    ||| w == seq!['y', 'e', 's']
    ||| w == seq!['n', 'o']
}

/// `v` parses as an `i64`.
pub open spec fn is_integer(v: Seq<char>) -> bool {
    signed_literal(v) matches Some(n) && i64::MIN <= n <= i64::MAX
}

/// `v` parses as a `u16`.
pub open spec fn is_u16(v: Seq<char>) -> bool {
    unsigned_literal(v) matches Some(n) && n <= u16::MAX
}

/// `v` parses as a nonzero `u16`.
pub open spec fn is_port(v: Seq<char>) -> bool {
    unsigned_literal(v) matches Some(n) && 0 < n <= u16::MAX
}

/// `v` is a non-empty list whose comma-separated items are not blank.
pub open spec fn is_comma_list(v: Seq<char>) -> bool {
    v.len() > 0 && forall|i: int|
        0 <= i < split_on(v, ',').len() ==> trim(#[trigger] split_on(v, ',')[i]).len() > 0
}

/// Whether `value` satisfies `rule`.
pub open spec fn rule_holds(rule: RuleView, value: Seq<char>) -> bool {
    match rule {
        RuleView::Required => value.len() > 0,
        RuleView::Integer => is_integer(value),
        RuleView::Float => float_syntax(value),
        RuleView::Url => has_prefix(value, http_scheme()) || has_prefix(value, https_scheme()),
        RuleView::Email => value.contains('@') && value.contains('.'),
        RuleView::OneOf(options) => options.contains(value),
        RuleView::Prefix(p) => has_prefix(value, p),
        RuleView::Boolean => boolean_word(lowercase(value)),
        RuleView::Port => is_port(value),
        RuleView::CommaList => is_comma_list(value),
    }
}

/// `'value'` after `, got `.
pub open spec fn got(value: Seq<char>) -> Seq<char> {
    ", got '"@ + value + "'"@
}

/// The message for a value that fails `rule`.
pub open spec fn failure_message(key: Seq<char>, value: Seq<char>, rule: RuleView) -> Seq<char> {
    match rule {
        RuleView::Required => key + " must not be empty"@,
        RuleView::Integer => key + " must be a valid integer"@ + got(value),
        RuleView::Float => key + " must be a valid number"@ + got(value),
        RuleView::Url => key + " must be a valid URL"@ + got(value),
        RuleView::Email => key + " must be a valid email"@ + got(value),
        RuleView::OneOf(options) => key + " must be one of ["@ + join(options, ", "@) + "]"@ + got(
            value,
        ),
        RuleView::Prefix(p) => key + " must start with '"@ + p + "'"@ + got(value),
        RuleView::Boolean => key + " must be a boolean"@ + got(value),
        RuleView::Port => if is_u16(value) {
            key + " must be a valid port number"@
        } else {
            key + " must be a valid port number"@ + got(value)
        },
        RuleView::CommaList => key + " must be a comma-separated list"@,
    }
}

/// The result of checking `value` of `key` against `rule`.
pub open spec fn check(key: Seq<char>, value: Seq<char>, rule: RuleView) -> ResultView {
    let valid = rule_holds(rule, value);
    ResultView {
        key,
        valid,
        message: if valid {
            None
        } else {
            Some(failure_message(key, value, rule))
        },
    }
}

/// The message for a required key that is not set.
pub open spec fn missing_message(key: Seq<char>) -> Seq<char> {
    key + " is required but not set"@
}

/// The result, if any, for one rule against the variables.
pub open spec fn rule_result(vars: Seq<VarView>, key: Seq<char>, rule: RuleView) -> Option<
    ResultView,
> {
    if has_key(vars, key) {
        Some(check(key, lookup(vars, key).value, rule))
    } else if rule is Required {
        Some(ResultView { key, valid: false, message: Some(missing_message(key)) })
    } else {
        None
    }
}

/// The results of all rules, in the order of the rules.
pub open spec fn validation(rules: Seq<(Seq<char>, RuleView)>, vars: Seq<VarView>) -> Seq<
    ResultView,
> {
    rules.filter_map(|kr: (Seq<char>, RuleView)| rule_result(vars, kr.0, kr.1))
}

/// No two rules share a key.
pub open spec fn unique_rule_keys(rules: Seq<(Seq<char>, RuleView)>) -> bool {
    forall|i: int, j: int|
        0 <= i < rules.len() && 0 <= j < rules.len() && i != j ==> rules[i].0 != rules[j].0
}

/// The position of a rule for `key` in `rules`, where there is one.
pub open spec fn rule_slot(rules: Seq<(Seq<char>, RuleView)>, key: Seq<char>) -> int {
    choose|i: int| 0 <= i < rules.len() && (#[trigger] rules[i]).0 == key
}

/// The rules with the rule for `key` set to `rule`: in place when the key
/// has one, at the end otherwise.
pub open spec fn set_rule(rules: Seq<(Seq<char>, RuleView)>, key: Seq<char>, rule: RuleView) -> Seq<
    (Seq<char>, RuleView),
> {
    if exists|i: int| 0 <= i < rules.len() && (#[trigger] rules[i]).0 == key {
        rules.update(rule_slot(rules, key), (key, rule))
    } else {
        rules.push((key, rule))
    }
}

/// Validation rules for env vars
pub struct EnvValidator {
    rules: Vec<(String, ValidationRule)>,
}

/// The views of a sequence of keyed rules.
pub open spec fn rule_views(s: Seq<(String, ValidationRule)>) -> Seq<(Seq<char>, RuleView)> {
    s.map_values(|kr: (String, ValidationRule)| (kr.0@, kr.1@))
}

impl View for EnvValidator {
    type V = Seq<(Seq<char>, RuleView)>;

    closed spec fn view(&self) -> Seq<(Seq<char>, RuleView)> {
        rule_views(self.rules@)
    }
}

/// Setting a rule keeps rule keys unique.
pub proof fn lemma_set_rule_unique(rules: Seq<(Seq<char>, RuleView)>, key: Seq<char>, rule: RuleView)
    requires
        unique_rule_keys(rules),
    ensures
        unique_rule_keys(set_rule(rules, key, rule)),
{
}

/// Sets the rule for `key` in `rules`.
fn set_rule_in(rules: &mut Vec<(String, ValidationRule)>, key: String, rule: ValidationRule)
    requires
        unique_rule_keys(rule_views(old(rules)@)),
    ensures
        rule_views(final(rules)@) == set_rule(rule_views(old(rules)@), key@, rule@),
        unique_rule_keys(rule_views(final(rules)@)),
{
    let ghost s = rule_views(rules@);
    let mut i: usize = 0;
    while i < rules.len()
        invariant
            i <= rules.len(),
            s == rule_views(rules@),
            s == rule_views(old(rules)@),
            unique_rule_keys(s),
            forall|j: int| 0 <= j < i ==> (#[trigger] s[j]).0 != key@,
        decreases rules.len() - i,
    {
        assert(s[i as int] == (rules@[i as int].0@, rules@[i as int].1@));
        if rules[i].0 == key {
            proof {
                let c = rule_slot(s, key@);
                assert(c == i);
                lemma_set_rule_unique(s, key@, rule@);
            }
            let ghost kv = key@;
            let ghost rv = rule@;
            rules.set(i, (key, rule));
            assert(rule_views(rules@) =~= s.update(i as int, (kv, rv)));
            return;
        }
        i = i + 1;
    }
    proof {
        lemma_set_rule_unique(s, key@, rule@);
    }
    let ghost kv = key@;
    let ghost rv = rule@;
    rules.push((key, rule));
    assert(rule_views(rules@) =~= s.push((kv, rv)));
}

/// The rules that [`EnvValidator::with_common_rules`] adds, in order.
pub open spec fn common_rules() -> Seq<(Seq<char>, RuleView)> {
    seq![
        ("PORT"@, RuleView::Port),
        ("DATABASE_URL"@, RuleView::Required),
        ("NODE_ENV"@, RuleView::OneOf(seq!["development"@, "production"@, "test"@])),
        ("DEBUG"@, RuleView::Boolean),
        ("SMTP_PORT"@, RuleView::Port),
    ]
}

/// `rules` with each of `more` set in turn.
pub open spec fn set_rules(rules: Seq<(Seq<char>, RuleView)>, more: Seq<(Seq<char>, RuleView)>) -> Seq<
    (Seq<char>, RuleView),
>
    decreases more.len(),
{
    if more.len() == 0 {
        rules
    } else {
        set_rule(set_rules(rules, more.drop_last()), more.last().0, more.last().1)
    }
}

/// A string built from a literal.
fn owned(s: &str) -> (r: String)
    ensures
        r@ == s@,
{
    s.to_owned()
}

impl EnvValidator {
    /// Rule keys are pairwise different.
    #[verifier::type_invariant]
    spec fn keys_unique(&self) -> bool {
        unique_rule_keys(rule_views(self.rules@))
    }

    pub fn new() -> (r: Self)
        ensures
            r@ == Seq::<(Seq<char>, RuleView)>::empty(),
    {
        let r = Self { rules: Vec::new() };
        assert(r@ =~= Seq::<(Seq<char>, RuleView)>::empty());
        r
    }

    /// Add a validation rule for a key
    ///
    /// A later rule for the same key replaces the earlier one.
    pub fn rule(self, key: &str, rule: ValidationRule) -> (r: Self)
        ensures
            r@ == set_rule(self@, key@, rule@),
            unique_rule_keys(r@),
    {
        proof {
            use_type_invariant(&self);
        }
        let mut rules = self.rules;
        set_rule_in(&mut rules, owned(key), rule);
        Self { rules }
    }

    /// Add common validation rules for typical .env patterns
    pub fn with_common_rules(self) -> (r: Self)
        ensures
            r@ == set_rules(self@, common_rules()),
            unique_rule_keys(r@),
    {
        let ghost c = common_rules();
        let ghost start = self@;
        proof {
            assert(c.take(0) =~= Seq::<(Seq<char>, RuleView)>::empty());
            assert(set_rules(start, c.take(0)) == start);
            assert(c.take(1).drop_last() =~= c.take(0));
            assert(c.take(2).drop_last() =~= c.take(1));
            assert(c.take(3).drop_last() =~= c.take(2));
            assert(c.take(4).drop_last() =~= c.take(3));
            assert(c.take(5).drop_last() =~= c.take(4));
            assert(c.take(5) =~= c);
        }
        let r = self.rule("PORT", ValidationRule::Port);
        assert(r@ == set_rules(start, c.take(1)));
        let r = r.rule("DATABASE_URL", ValidationRule::Required);
        assert(r@ == set_rules(start, c.take(2)));
        let options = vec![owned("development"), owned("production"), owned("test")];
        let ghost opts = options@.map_values(|s: String| s@);
        assert(opts =~= seq!["development"@, "production"@, "test"@]);
        let r = r.rule("NODE_ENV", ValidationRule::OneOf(options));
        assert(r@ == set_rules(start, c.take(3)));
        let r = r.rule("DEBUG", ValidationRule::Boolean);
        assert(r@ == set_rules(start, c.take(4)));
        let r = r.rule("SMTP_PORT", ValidationRule::Port);
        assert(r@ == set_rules(start, c.take(5)));
        r
    }

    /// Validate all variables against the configured rules
    pub fn validate(&self, vars: &Vec<EnvVar>) -> (r: ValidationReport)
        ensures
            result_views(r.results@) == validation(self@, views(vars@)),
            unique_rule_keys(self@),
    {
        proof {
            use_type_invariant(self);
        }
        let ghost rs = self@;
        let ghost vs = views(vars@);
        let mut results: Vec<ValidationResult> = Vec::new();
        let mut i: usize = 0;
        while i < self.rules.len()
            invariant
                i <= self.rules.len(),
                rs == rule_views(self.rules@),
                vs == views(vars@),
                result_views(results@) == validation(rs.take(i as int), vs),
            decreases self.rules.len() - i,
        {
            proof {
                assert(rs.take(i + 1).drop_last() =~= rs.take(i as int));
                assert(rs.take(i + 1).last() == rs[i as int]);
                assert(rs[i as int] == (self.rules@[i as int].0@, self.rules@[i as int].1@));
            }
            let key = &self.rules[i].0;
            let rule = &self.rules[i].1;
            match find_key(vars, key) {
                Some(j) => {
                    proof {
                        lemma_key_index(vs, key@, j as int);
                        assert(vs[j as int] == vars@[j as int]@);
                    }
                    let res = self.validate_var(key.as_str(), vars[j].value.as_str(), rule);
                    results.push(res);
                    assert(result_views(results@) =~= validation(rs.take(i + 1), vs));
                },
                None => {
                    if let ValidationRule::Required = rule {
                        let mut m = owned(key.as_str());
                        m.append(" is required but not set");
                        results.push(
                            ValidationResult { key: owned(key.as_str()), valid: false, message: Some(m) },
                        );
                    }
                    assert(result_views(results@) =~= validation(rs.take(i + 1), vs));
                },
            }
            i = i + 1;
        }
        assert(rs.take(rs.len() as int) =~= rs);
        ValidationReport { results }
    }

    fn validate_var(&self, key: &str, value: &str, rule: &ValidationRule) -> (r: ValidationResult)
        ensures
            r@ == check(key@, value@, rule@),
    {
        let chars = chars_of(value);
        let (valid, message) = match rule {
            ValidationRule::Required => (value.unicode_len() > 0, owned(" must not be empty")),
            ValidationRule::Integer => (
                parse_i64(value).is_some(),
                with_got(" must be a valid integer", value),
            ),
            ValidationRule::Float => (is_float_syntax(&chars), with_got(" must be a valid number", value)),
            ValidationRule::Url => {
                let http = vec!['h', 't', 't', 'p', ':', '/', '/'];
                let https = vec!['h', 't', 't', 'p', 's', ':', '/', '/'];
                assert(http@ =~= http_scheme());
                assert(https@ =~= https_scheme());
                assert(chars@.subrange(0, chars.len() as int) =~= chars@);
                (
                    range_has_prefix(&chars, 0, chars.len(), &http) || range_has_prefix(
                        &chars,
                        0,
                        chars.len(),
                        &https,
                    ),
                    with_got(" must be a valid URL", value),
                )
            },
            ValidationRule::Email => (
                has_char(&chars, '@') && has_char(&chars, '.'),
                with_got(" must be a valid email", value),
            ),
            ValidationRule::OneOf(options) => {
                let mut m = owned(" must be one of [");
                let joined = join_strings(options, ", ");
                m.append(joined.as_str());
                m.append("]");
                m.append(", got '");
                m.append(value);
                m.append("'");
                (is_one_of(options, value), m)
            },
            ValidationRule::Prefix(prefix) => {
                let p = chars_of(prefix.as_str());
                assert(chars@.subrange(0, chars.len() as int) =~= chars@);
                let mut m = owned(" must start with '");
                m.append(prefix.as_str());
                m.append("'");
                m.append(", got '");
                m.append(value);
                m.append("'");
                (range_has_prefix(&chars, 0, chars.len(), &p), m)
            },
            ValidationRule::Boolean => {
                let lower = to_lowercase(value);
                (is_boolean_word(&chars_of(lower.as_str())), with_got(" must be a boolean", value))
            },
            ValidationRule::Port => match parse_u16(value) {
                Some(p) => (p > 0, owned(" must be a valid port number")),
                None => (false, with_got(" must be a valid port number", value)),
            },
            ValidationRule::CommaList => (
                chars.len() > 0 && comma_items_filled(&chars),
                owned(" must be a comma-separated list"),
            ),
        };
        proof {
            match rule {
                ValidationRule::Required => assert(valid == rule_holds(rule@, value@)),
                ValidationRule::Integer => assert(valid == rule_holds(rule@, value@)),
                ValidationRule::Float => assert(valid == rule_holds(rule@, value@)),
                ValidationRule::Url => assert(valid == rule_holds(rule@, value@)),
                ValidationRule::Email => assert(valid == rule_holds(rule@, value@)),
                ValidationRule::OneOf(_) => assert(valid == rule_holds(rule@, value@)),
                ValidationRule::Prefix(_) => assert(valid == rule_holds(rule@, value@)),
                ValidationRule::Boolean => assert(valid == rule_holds(rule@, value@)),
                ValidationRule::Port => {
                    crate::literal::lemma_unsigned_nonneg(value@);
                    assert(valid == rule_holds(rule@, value@));
                },
                ValidationRule::CommaList => assert(valid == rule_holds(rule@, value@)),
            }
        }
        let mut full = owned(key);
        full.append(message.as_str());
        proof {
            assert(full@ =~= failure_message(key@, value@, rule@));
        }
        ValidationResult {
            key: owned(key),
            valid,
            message: if valid {
                None
            } else {
                Some(full)
            },
        }
    }
}

/// `text`, then `, got '`, the value and `'`.
fn with_got(text: &str, value: &str) -> (r: String)
    ensures
        r@ == text@ + got(value@),
{
    let mut m = owned(text);
    m.append(", got '");
    m.append(value);
    m.append("'");
    assert(m@ =~= text@ + got(value@));
    m
}

/// Whether `value` is one of `options`.
fn is_one_of(options: &Vec<String>, value: &str) -> (r: bool)
    ensures
        r == options@.map_values(|s: String| s@).contains(value@),
{
    let ghost o = options@.map_values(|s: String| s@);
    let v = owned(value);
    let mut i: usize = 0;
    while i < options.len()
        invariant
            i <= options.len(),
            o == options@.map_values(|s: String| s@),
            v@ == value@,
            forall|j: int| 0 <= j < i ==> o[j] != value@,
        decreases options.len() - i,
    {
        assert(o[i as int] == options@[i as int]@);
        if options[i] == v {
            return true;
        }
        i = i + 1;
    }
    false
}

/// Whether the lowercased value is one of the boolean words.
pub fn is_boolean_word(w: &Vec<char>) -> (r: bool)
    ensures
        r == boolean_word(w@),
{
    let words = vec![
        vec!['t', 'r', 'u', 'e'],
        vec!['f', 'a', 'l', 's', 'e'],
        vec!['1'],
        vec!['0'],
        vec!['y', 'e', 's'],
        vec!['n', 'o'],
    ];
    assert(words@[0]@ =~= seq!['t', 'r', 'u', 'e']);
    assert(words@[1]@ =~= seq!['f', 'a', 'l', 's', 'e']);
    assert(words@[2]@ =~= seq!['1']);
    assert(words@[3]@ =~= seq!['0']);
    assert(words@[4]@ =~= seq!['y', 'e', 's']);
    assert(words@[5]@ =~= seq!['n', 'o']);
    let mut i: usize = 0;
    while i < words.len()
        invariant
            i <= words.len(),
            words.len() == 6,
            words@[0]@ == seq!['t', 'r', 'u', 'e'],
            words@[1]@ == seq!['f', 'a', 'l', 's', 'e'],
            words@[2]@ == seq!['1'],
            words@[3]@ == seq!['0'],
            words@[4]@ == seq!['y', 'e', 's'],
            words@[5]@ == seq!['n', 'o'],
            forall|j: int| 0 <= j < i ==> w@ != (#[trigger] words@[j])@,
        decreases words.len() - i,
    {
        if same_chars(w, &words[i]) {
            return true;
        }
        i = i + 1;
    }
    false
}

/// Whether two character vectors are equal.
fn same_chars(a: &Vec<char>, b: &Vec<char>) -> (r: bool)
    ensures
        r == (a@ == b@),
{
    if a.len() != b.len() {
        return false;
    }
    let mut i: usize = 0;
    while i < a.len()
        invariant
            a.len() == b.len(),
            i <= a.len(),
            forall|j: int| 0 <= j < i ==> a@[j] == b@[j],
        decreases a.len() - i,
    {
        if a[i] != b[i] {
            return false;
        }
        i = i + 1;
    }
    assert(a@ =~= b@);
    true
}

/// Unfolds `split_on` at a separator at `q`.
proof fn lemma_split_on_step(s: Seq<char>, c: char, pos: int, q: int)
    requires
        0 <= pos <= q < s.len(),
        s[q] == c,
        forall|j: int| pos <= j < q ==> s[j] != c,
    ensures
        split_on(s.skip(pos), c) == seq![s.subrange(pos, q)] + split_on(s.skip(q + 1), c),
{
    let t = s.skip(pos);
    assert forall|j: int| 0 <= j < q - pos implies t[j] != c by {
        assert(t[j] == s[pos + j]);
    }
    lemma_first_at(t, c, q - pos);
    assert(t.take(q - pos) =~= s.subrange(pos, q));
    assert(t.skip(q - pos + 1) =~= s.skip(q + 1));
}

/// Unfolds `split_on` where no separator is left.
proof fn lemma_split_on_last(s: Seq<char>, c: char, pos: int)
    requires
        0 <= pos <= s.len(),
        forall|j: int| pos <= j < s.len() ==> s[j] != c,
    ensures
        split_on(s.skip(pos), c) == seq![s.subrange(pos, s.len() as int)],
{
    let t = s.skip(pos);
    assert forall|j: int| 0 <= j < t.len() implies t[j] != c by {
        assert(t[j] == s[pos + j]);
    }
    lemma_first_none(t, c);
    assert(t =~= s.subrange(pos, s.len() as int));
}

/// Whether every comma-separated item of `v` holds a non-blank character.
fn comma_items_filled(v: &Vec<char>) -> (r: bool)
    ensures
        r == (forall|i: int|
            0 <= i < split_on(v@, ',').len() ==> trim(#[trigger] split_on(v@, ',')[i]).len() > 0),
{
    let ghost all = split_on(v@, ',');
    let ghost mut done: Seq<Seq<char>> = Seq::empty();
    let mut pos: usize = 0;
    assert(v@.skip(0) =~= v@);
    loop
        invariant
            pos <= v.len(),
            all == split_on(v@, ','),
            all == done + split_on(v@.skip(pos as int), ','),
            forall|i: int| 0 <= i < done.len() ==> trim(#[trigger] done[i]).len() > 0,
        decreases v.len() - pos,
    {
        match find_char_in(v, ',', pos, v.len()) {
            Some(q) => {
                proof {
                    lemma_split_on_step(v@, ',', pos as int, q as int);
                }
                let (a, b) = trim_range(v, pos, q);
                if a == b {
                    assert(all[done.len() as int] == v@.subrange(pos as int, q as int));
                    return false;
                }
                proof {
                    let item = v@.subrange(pos as int, q as int);
                    done = done.push(item);
                    assert(all =~= done + split_on(v@.skip(q + 1), ','));
                }
                pos = q + 1;
            },
            None => {
                proof {
                    lemma_split_on_last(v@, ',', pos as int);
                }
                let (a, b) = trim_range(v, pos, v.len());
                assert(all[done.len() as int] == v@.subrange(pos as int, v.len() as int));
                assert(all.len() == done.len() + 1);
                return a < b;
            },
        }
    }
}


// ---------------------------------------------------------------------------
// Laws
// ---------------------------------------------------------------------------

/// A report is valid exactly when it lists no errors.
pub proof fn lemma_valid_iff_no_errors(s: Seq<ValidationResult>)
    ensures
        (forall|i: int| 0 <= i < s.len() ==> (#[trigger] s[i]).valid) <==> failed(s).len() == 0,
    decreases s.len(),
{
    reveal(Seq::filter);
    if s.len() > 0 {
        lemma_valid_iff_no_errors(s.drop_last());
        if forall|i: int| 0 <= i < s.len() ==> (#[trigger] s[i]).valid {
            assert forall|i: int| 0 <= i < s.drop_last().len() implies (
            #[trigger] s.drop_last()[i]).valid by {
                assert(s.drop_last()[i] == s[i]);
            }
        }
        if failed(s).len() == 0 {
            assert forall|i: int| 0 <= i < s.len() implies (#[trigger] s[i]).valid by {
                if i < s.len() - 1 {
                    assert(s.drop_last()[i] == s[i]);
                }
            }
        }
        if !s.last().valid {
            assert(failed(s).len() > 0);
        }
    }
}

/// Every result carries a message exactly when it failed, and there is at
/// most one result per rule.
pub proof fn lemma_message_iff_failed(rules: Seq<(Seq<char>, RuleView)>, vars: Seq<VarView>)
    ensures
        validation(rules, vars).len() <= rules.len(),
        forall|i: int|
            0 <= i < validation(rules, vars).len() ==> ((#[trigger] validation(rules, vars)[i]).valid
                <==> validation(rules, vars)[i].message is None),
    decreases rules.len(),
{
    if rules.len() > 0 {
        lemma_message_iff_failed(rules.drop_last(), vars);
        let prev = validation(rules.drop_last(), vars);
        let cur = validation(rules, vars);
        match rule_result(vars, rules.last().0, rules.last().1) {
            Some(y) => {
                assert(cur =~= prev + seq![y]);
                assert(y.valid <==> y.message is None);
            },
            None => {
                assert(cur =~= prev);
            },
        }
        assert forall|i: int| 0 <= i < cur.len() implies ((#[trigger] cur[i]).valid <==> cur[i].message is None) by {
            if i < prev.len() {
                assert(cur[i] == prev[i]);
            } else {
                let y = rule_result(vars, rules.last().0, rules.last().1).unwrap();
                assert(cur[i] == y);
            }
        }
    } else {
        assert(validation(rules, vars).len() == 0);
    }
}

/// A missing key fails only a `Required` rule, and a key that is set is
/// always checked: one result per rule whose key is set.
pub proof fn lemma_result_for_rule(rules: Seq<(Seq<char>, RuleView)>, vars: Seq<VarView>, i: int)
    requires
        0 <= i < rules.len(),
    ensures
        rule_result(vars, rules[i].0, rules[i].1) is Some <==> (has_key(vars, rules[i].0)
            || rules[i].1 is Required),
        !has_key(vars, rules[i].0) && rules[i].1 is Required ==> rule_result(
            vars,
            rules[i].0,
            rules[i].1,
        ) == Some(
            ResultView {
                key: rules[i].0,
                valid: false,
                message: Some(missing_message(rules[i].0)),
            },
        ),
{
}

/// Any text after `http://` or `https://` makes a valid URL, and a value
/// that does not start with `h` never is one.
pub proof fn lemma_url_rule(rest: Seq<char>, v: Seq<char>)
    ensures
        rule_holds(RuleView::Url, seq!['h', 't', 't', 'p', ':', '/', '/'] + rest),
        rule_holds(RuleView::Url, seq!['h', 't', 't', 'p', 's', ':', '/', '/'] + rest),
        v.len() == 0 || v[0] != 'h' ==> !rule_holds(RuleView::Url, v),
{
    assert((seq!['h', 't', 't', 'p', ':', '/', '/'] + rest).take(7) =~= http_scheme());
    assert((seq!['h', 't', 't', 'p', 's', ':', '/', '/'] + rest).take(8) =~= https_scheme());
    if v.len() >= 7 && v[0] != 'h' {
        assert(v.take(7)[0] != http_scheme()[0]);
    }
    if v.len() >= 8 && v[0] != 'h' {
        assert(v.take(8)[0] != https_scheme()[0]);
    }
}

/// `s` holds a character that is not whitespace.
pub open spec fn has_visible(s: Seq<char>) -> bool {
    exists|k: int| 0 <= k < s.len() && !white_space(#[trigger] s[k])
}

/// Items free of commas, joined with commas, form an accepted list exactly
/// when each item holds a character that is not whitespace: whitespace
/// around the items never makes the list fail.
pub proof fn lemma_comma_list_items(items: Seq<Seq<char>>)
    requires
        items.len() >= 1,
        forall|i: int| 0 <= i < items.len() ==> !(#[trigger] items[i]).contains(','),
    ensures
        rule_holds(RuleView::CommaList, join(items, seq![','])) <==> forall|i: int|
            0 <= i < items.len() ==> has_visible(#[trigger] items[i]),
{
    let v = join(items, seq![',']);
    lemma_split_on_join(items, ',');
    assert forall|i: int| 0 <= i < items.len() implies (trim(#[trigger] items[i]).len() > 0
        <==> has_visible(items[i])) by {
        lemma_trim_empty(items[i]);
    }
    if is_comma_list(v) {
        assert forall|i: int| 0 <= i < items.len() implies has_visible(#[trigger] items[i]) by {
            assert(split_on(v, ',')[i] == items[i]);
        }
    }
    if forall|i: int| 0 <= i < items.len() ==> has_visible(#[trigger] items[i]) {
        assert forall|i: int| 0 <= i < split_on(v, ',').len() implies trim(
            #[trigger] split_on(v, ',')[i],
        ).len() > 0 by {
            assert(split_on(v, ',')[i] == items[i]);
            assert(has_visible(items[i]));
        }
        if items.len() >= 2 {
            lemma_join_first(items, seq![',']);
        } else {
            assert(v == items[0]);
            assert(has_visible(items[0]));
        }
        assert(v.len() > 0);
    }
}

/// Setting a rule leaves that rule in place for its key.
pub proof fn lemma_set_rule_has(rules: Seq<(Seq<char>, RuleView)>, key: Seq<char>, rule: RuleView)
    ensures
        set_rule(rules, key, rule).contains((key, rule)),
{
    let after = set_rule(rules, key, rule);
    if exists|i: int| 0 <= i < rules.len() && (#[trigger] rules[i]).0 == key {
        let c = rule_slot(rules, key);
        assert(after[c] == (key, rule));
    } else {
        assert(after[rules.len() as int] == (key, rule));
    }
}

/// Setting a rule for one key keeps the entries of every other key.
pub proof fn lemma_set_rule_keeps(
    rules: Seq<(Seq<char>, RuleView)>,
    key: Seq<char>,
    rule: RuleView,
    x: (Seq<char>, RuleView),
)
    requires
        rules.contains(x),
        x.0 != key,
    ensures
        set_rule(rules, key, rule).contains(x),
{
    let after = set_rule(rules, key, rule);
    let j = choose|j: int| 0 <= j < rules.len() && rules[j] == x;
    if exists|i: int| 0 <= i < rules.len() && (#[trigger] rules[i]).0 == key {
        let c = rule_slot(rules, key);
        assert(c != j);
        assert(after[j] == x);
    } else {
        assert(after[j] == x);
    }
}

/// Setting a rule twice for one key keeps only the second.
pub proof fn lemma_set_rule_twice(
    rules: Seq<(Seq<char>, RuleView)>,
    key: Seq<char>,
    first: RuleView,
    second: RuleView,
)
    requires
        unique_rule_keys(rules),
    ensures
        set_rule(set_rule(rules, key, first), key, second) == set_rule(rules, key, second),
{
    let once = set_rule(rules, key, first);
    if exists|i: int| 0 <= i < rules.len() && (#[trigger] rules[i]).0 == key {
        let c = rule_slot(rules, key);
        assert(once[c].0 == key);
        let d = rule_slot(once, key);
        if d != c {
            assert(once[d] == rules[d]);
        }
        assert(set_rule(once, key, second) =~= set_rule(rules, key, second));
    } else {
        let n = rules.len() as int;
        assert(once[n].0 == key);
        let d = rule_slot(once, key);
        if d != n {
            assert(once[d] == rules[d]);
        }
        assert(set_rule(once, key, second) =~= set_rule(rules, key, second));
    }
}

} // verus!

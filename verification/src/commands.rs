//! What the command-line subcommands compute: the rules that `validate`
//! checks and the JSON text that `diff --format json` prints, with every
//! key and value escaped as a JSON string.
use vstd::prelude::*;
use crate::sync::{ChangedVar, ChangedView, EnvDiff, EnvSync, EnvVar, VarView, changed_views, views};
use crate::literal::{all_digits, decimal_value, is_digit};
use crate::text::{chars_of, contains_seq, has_infix, push_char};
use crate::validate::{
    EnvValidator, RuleView, ValidationRule, common_rules, lemma_set_rule_has, lemma_set_rule_keeps,
    rule_holds, set_rule, set_rules, to_uppercase, uppercase,
};

verus! {

// ---------------------------------------------------------------------------
// Rules for `validate`
// ---------------------------------------------------------------------------

/// `PORT`
pub open spec fn port_word() -> Seq<char> {
    seq!['P', 'O', 'R', 'T']
}

/// `URL`
pub open spec fn url_word() -> Seq<char> {
    seq!['U', 'R', 'L']
}

/// `URI`
pub open spec fn uri_word() -> Seq<char> {
    seq!['U', 'R', 'I']
}

/// `ENDPOINT`
pub open spec fn endpoint_word() -> Seq<char> {
    seq!['E', 'N', 'D', 'P', 'O', 'I', 'N', 'T']
}

/// A key that names a port: its uppercase form contains `PORT`.
pub open spec fn names_port(key: Seq<char>) -> bool {
    has_infix(uppercase(key), port_word())
}

/// A key that names an address: its uppercase form contains `URL`, `URI`
/// or `ENDPOINT`.
pub open spec fn names_url(key: Seq<char>) -> bool {
    has_infix(uppercase(key), url_word()) || has_infix(uppercase(key), uri_word()) || has_infix(
        uppercase(key),
        endpoint_word(),
    )
}

/// `rules` with `Port` set for every variable that names a port, in order.
pub open spec fn port_rules(rules: Seq<(Seq<char>, RuleView)>, vars: Seq<VarView>) -> Seq<
    (Seq<char>, RuleView),
>
    decreases vars.len(),
{
    if vars.len() == 0 {
        rules
    } else {
        let prev = port_rules(rules, vars.drop_last());
        if names_port(vars.last().key) {
            set_rule(prev, vars.last().key, RuleView::Port)
        } else {
            prev
        }
    }
}

/// `rules` with `Url` set for every variable that names an address, in order.
pub open spec fn url_rules(rules: Seq<(Seq<char>, RuleView)>, vars: Seq<VarView>) -> Seq<
    (Seq<char>, RuleView),
>
    decreases vars.len(),
{
    if vars.len() == 0 {
        rules
    } else {
        let prev = url_rules(rules, vars.drop_last());
        if names_url(vars.last().key) {
            set_rule(prev, vars.last().key, RuleView::Url)
        } else {
            prev
        }
    }
}

/// The rules that `validate` checks: the common rules when asked, then
/// `Port` for keys that name a port, then `Url` for keys that name an
/// address.
pub open spec fn command_rules(
    vars: Seq<VarView>,
    common: bool,
    check_ports: bool,
    check_urls: bool,
) -> Seq<(Seq<char>, RuleView)> {
    let r0 = if common {
        set_rules(Seq::empty(), common_rules())
    } else {
        Seq::empty()
    };
    let r1 = if check_ports {
        port_rules(r0, vars)
    } else {
        r0
    };
    if check_urls {
        url_rules(r1, vars)
    } else {
        r1
    }
}

/// Builds the validator that the `validate` subcommand uses for `env`.
pub fn validator_for(env: &EnvSync, common: bool, check_ports: bool, check_urls: bool) -> (r:
    EnvValidator)
    ensures
        r@ == command_rules(env@, common, check_ports, check_urls),
{
    let mut validator = EnvValidator::new();
    if common {
        validator = validator.with_common_rules();
    }
    let ghost r0 = validator@;
    let vars = env.vars();
    let ghost s = env@;
    if check_ports {
        let port = vec!['P', 'O', 'R', 'T'];
        assert(port@ =~= port_word());
        let mut i: usize = 0;
        while i < vars.len()
            invariant
                i <= vars.len(),
                s == views(vars@),
                port@ == port_word(),
                validator@ == port_rules(r0, s.take(i as int)),
            decreases vars.len() - i,
        {
            proof {
                assert(s.take(i + 1).drop_last() =~= s.take(i as int));
                assert(s.take(i + 1).last() == s[i as int]);
                assert(s[i as int] == vars@[i as int]@);
            }
            let upper = chars_of(to_uppercase(vars[i].key.as_str()).as_str());
            if contains_seq(&upper, &port) {
                validator = validator.rule(vars[i].key.as_str(), ValidationRule::Port);
            }
            i = i + 1;
        }
        assert(s.take(s.len() as int) =~= s);
    }
    let ghost r1 = validator@;
    if check_urls {
        let url = vec!['U', 'R', 'L'];
        let uri = vec!['U', 'R', 'I'];
        let endpoint = vec!['E', 'N', 'D', 'P', 'O', 'I', 'N', 'T'];
        assert(url@ =~= url_word());
        assert(uri@ =~= uri_word());
        assert(endpoint@ =~= endpoint_word());
        let mut i: usize = 0;
        while i < vars.len()
            invariant
                i <= vars.len(),
                s == views(vars@),
                url@ == url_word(),
                uri@ == uri_word(),
                endpoint@ == endpoint_word(),
                validator@ == url_rules(r1, s.take(i as int)),
            decreases vars.len() - i,
        {
            proof {
                assert(s.take(i + 1).drop_last() =~= s.take(i as int));
                assert(s.take(i + 1).last() == s[i as int]);
                assert(s[i as int] == vars@[i as int]@);
            }
            let upper = chars_of(to_uppercase(vars[i].key.as_str()).as_str());
            if contains_seq(&upper, &url) || contains_seq(&upper, &uri) || contains_seq(
                &upper,
                &endpoint,
            ) {
                validator = validator.rule(vars[i].key.as_str(), ValidationRule::Url);
            }
            i = i + 1;
        }
        assert(s.take(s.len() as int) =~= s);
    }
    validator
}

/// Every variable that names a port ends up with the `Port` rule.
proof fn lemma_port_rules_has(rules: Seq<(Seq<char>, RuleView)>, vars: Seq<VarView>, i: int)
    requires
        0 <= i < vars.len(),
        names_port(vars[i].key),
    ensures
        port_rules(rules, vars).contains((vars[i].key, RuleView::Port)),
    decreases vars.len(),
{
    let prev = port_rules(rules, vars.drop_last());
    let last = vars.last();
    if i == vars.len() - 1 {
        lemma_set_rule_has(prev, last.key, RuleView::Port);
    } else {
        assert(vars.drop_last()[i] == vars[i]);
        lemma_port_rules_has(rules, vars.drop_last(), i);
        if names_port(last.key) {
            if last.key == vars[i].key {
                lemma_set_rule_has(prev, last.key, RuleView::Port);
            } else {
                lemma_set_rule_keeps(prev, last.key, RuleView::Port, (vars[i].key, RuleView::Port));
            }
        }
    }
}

/// Every variable that names an address ends up with the `Url` rule.
proof fn lemma_url_rules_has(rules: Seq<(Seq<char>, RuleView)>, vars: Seq<VarView>, i: int)
    requires
        0 <= i < vars.len(),
        names_url(vars[i].key),
    ensures
        url_rules(rules, vars).contains((vars[i].key, RuleView::Url)),
    decreases vars.len(),
{
    let prev = url_rules(rules, vars.drop_last());
    let last = vars.last();
    if i == vars.len() - 1 {
        lemma_set_rule_has(prev, last.key, RuleView::Url);
    } else {
        assert(vars.drop_last()[i] == vars[i]);
        lemma_url_rules_has(rules, vars.drop_last(), i);
        if names_url(last.key) {
            if last.key == vars[i].key {
                lemma_set_rule_has(prev, last.key, RuleView::Url);
            } else {
                lemma_set_rule_keeps(prev, last.key, RuleView::Url, (vars[i].key, RuleView::Url));
            }
        }
    }
}

/// The address rules leave the entry of a key that names no address alone.
proof fn lemma_url_rules_keeps(
    rules: Seq<(Seq<char>, RuleView)>,
    vars: Seq<VarView>,
    x: (Seq<char>, RuleView),
)
    requires
        rules.contains(x),
        !names_url(x.0),
    ensures
        url_rules(rules, vars).contains(x),
    decreases vars.len(),
{
    if vars.len() > 0 {
        lemma_url_rules_keeps(rules, vars.drop_last(), x);
        if names_url(vars.last().key) {
            lemma_set_rule_keeps(
                url_rules(rules, vars.drop_last()),
                vars.last().key,
                RuleView::Url,
                x,
            );
        }
    }
}

/// With URL checks on, every variable whose uppercase key contains `URL`,
/// `URI` or `ENDPOINT` is checked as a URL.
pub proof fn lemma_address_keys_checked_as_url(
    vars: Seq<VarView>,
    common: bool,
    check_ports: bool,
    i: int,
)
    requires
        0 <= i < vars.len(),
        has_infix(uppercase(vars[i].key), seq!['U', 'R', 'L']) || has_infix(
            uppercase(vars[i].key),
            seq!['U', 'R', 'I'],
        ) || has_infix(uppercase(vars[i].key), seq!['E', 'N', 'D', 'P', 'O', 'I', 'N', 'T']),
    ensures
        command_rules(vars, common, check_ports, true).contains((vars[i].key, RuleView::Url)),
{
    assert(seq!['U', 'R', 'L'] =~= url_word());
    assert(seq!['U', 'R', 'I'] =~= uri_word());
    assert(seq!['E', 'N', 'D', 'P', 'O', 'I', 'N', 'T'] =~= endpoint_word());
    let r0 = if common {
        set_rules(Seq::empty(), common_rules())
    } else {
        Seq::empty()
    };
    let r1 = if check_ports {
        port_rules(r0, vars)
    } else {
        r0
    };
    lemma_url_rules_has(r1, vars, i);
}

/// With port checks on, every variable whose uppercase key contains `PORT`
/// is checked as a port, unless URL checks are on too and the key also
/// names an address (the URL rule, set later, then takes its place).
pub proof fn lemma_port_keys_checked_as_port(
    vars: Seq<VarView>,
    common: bool,
    check_urls: bool,
    i: int,
)
    requires
        0 <= i < vars.len(),
        has_infix(uppercase(vars[i].key), seq!['P', 'O', 'R', 'T']),
        check_urls ==> !(has_infix(uppercase(vars[i].key), seq!['U', 'R', 'L']) || has_infix(
            uppercase(vars[i].key),
            seq!['U', 'R', 'I'],
        ) || has_infix(uppercase(vars[i].key), seq!['E', 'N', 'D', 'P', 'O', 'I', 'N', 'T'])),
    ensures
        command_rules(vars, common, true, check_urls).contains((vars[i].key, RuleView::Port)),
{
    assert(seq!['P', 'O', 'R', 'T'] =~= port_word());
    assert(seq!['U', 'R', 'L'] =~= url_word());
    assert(seq!['U', 'R', 'I'] =~= uri_word());
    assert(seq!['E', 'N', 'D', 'P', 'O', 'I', 'N', 'T'] =~= endpoint_word());
    let r0 = if common {
        set_rules(Seq::empty(), common_rules())
    } else {
        Seq::empty()
    };
    lemma_port_rules_has(r0, vars, i);
    if check_urls {
        lemma_url_rules_keeps(port_rules(r0, vars), vars, (vars[i].key, RuleView::Port));
    }
}

// ---------------------------------------------------------------------------
// JSON for `diff`
// ---------------------------------------------------------------------------

/// The lines of `lines`, each followed by a newline.
pub open spec fn text_of_lines(lines: Seq<Seq<char>>) -> Seq<char>
    decreases lines.len(),
{
    if lines.len() == 0 {
        Seq::empty()
    } else {
        text_of_lines(lines.drop_last()) + lines.last() + "\n"@
    }
}

/// Every item but the last followed by a comma.
pub open spec fn with_commas(items: Seq<Seq<char>>) -> Seq<Seq<char>> {
    Seq::new(
        items.len(),
        |i: int|
            if i < items.len() - 1 {
                items[i] + ","@
            } else {
                items[i]
            },
    )
}

/// The lowercase hexadecimal digit for `d` in `0..16`.
pub open spec fn hex_digit(d: int) -> char {
    seq!['0', '1', '2', '3', '4', '5', '6', '7', '8', '9', 'a', 'b', 'c', 'd', 'e', 'f'][d]
}

/// How a character stands inside a JSON string: `"` and `\` escaped,
/// control characters as short escapes or `\u00XX`, others as they are.
pub open spec fn json_char(c: char) -> Seq<char> {
    if c == '"' {
        seq!['\\', '"']
    } else if c == '\\' {
        seq!['\\', '\\']
    } else if c == '\n' {
        seq!['\\', 'n']
    } else if c == '\r' {
        seq!['\\', 'r']
    } else if c == '\t' {
        seq!['\\', 't']
    } else if c == '\u{8}' {
        seq!['\\', 'b']
    } else if c == '\u{c}' {
        seq!['\\', 'f']
    } else if '\u{1f}' >= c {
        seq!['\\', 'u', '0', '0', hex_digit(((c as u32) / 16 % 16) as int), hex_digit(((c as u32) % 16) as int)]
    } else {
        seq![c]
    }
}

/// A text as the contents of a JSON string.
pub open spec fn json_escape(s: Seq<char>) -> Seq<char>
    decreases s.len(),
{
    if s.len() == 0 {
        Seq::empty()
    } else {
        json_escape(s.drop_last()) + json_char(s.last())
    }
}

/// Appends `s` escaped for a JSON string.
fn push_json_escaped(out: &mut String, s: &str)
    ensures
        final(out)@ == old(out)@ + json_escape(s@),
{
    let chars = chars_of(s);
    let hex = vec!['0', '1', '2', '3', '4', '5', '6', '7', '8', '9', 'a', 'b', 'c', 'd', 'e', 'f'];
    let ghost start = out@;
    let mut i: usize = 0;
    assert(chars@.take(0) =~= Seq::<char>::empty());
    while i < chars.len()
        invariant
            i <= chars.len(),
            chars@ == s@,
            hex@ == seq!['0', '1', '2', '3', '4', '5', '6', '7', '8', '9', 'a', 'b', 'c', 'd', 'e', 'f'],
            out@ == start + json_escape(chars@.take(i as int)),
        decreases chars.len() - i,
    {
        let c = chars[i];
        let ghost before = out@;
        if c == '"' {
            push_char(out, '\\');
            push_char(out, '"');
        } else if c == '\\' {
            push_char(out, '\\');
            push_char(out, '\\');
        } else if c == '\n' {
            push_char(out, '\\');
            push_char(out, 'n');
        } else if c == '\r' {
            push_char(out, '\\');
            push_char(out, 'r');
        } else if c == '\t' {
            push_char(out, '\\');
            push_char(out, 't');
        } else if c == '\u{8}' {
            push_char(out, '\\');
            push_char(out, 'b');
        } else if c == '\u{c}' {
            push_char(out, '\\');
            push_char(out, 'f');
        } else if '\u{1f}' >= c {
            let n = c as u32;
            push_char(out, '\\');
            push_char(out, 'u');
            push_char(out, '0');
            push_char(out, '0');
            push_char(out, hex[(n / 16 % 16) as usize]);
            push_char(out, hex[(n % 16) as usize]);
        } else {
            push_char(out, c);
        }
        assert(out@ =~= before + json_char(c));
        assert(chars@.take(i + 1).drop_last() =~= chars@.take(i as int));
        assert(chars@.take(i + 1).last() == c);
        i = i + 1;
    }
    assert(chars@.take(chars.len() as int) =~= chars@);
}

/// The JSON object written for an added or removed variable.
pub open spec fn var_json(v: VarView) -> Seq<char> {
    "    {\"key\": \""@ + json_escape(v.key) + "\", \"value\": \""@ + json_escape(v.value) + "\"}"@
}

/// The JSON object written for a changed variable.
pub open spec fn change_json(c: ChangedView) -> Seq<char> {
    "    {\"key\": \""@ + json_escape(c.key) + "\", \"old_value\": \""@ + json_escape(c.old_value)
        + "\", \"new_value\": \""@ + json_escape(c.new_value) + "\"}"@
}

/// The lines of the JSON form of a diff.
pub open spec fn diff_json_lines(
    added: Seq<VarView>,
    removed: Seq<VarView>,
    changed: Seq<ChangedView>,
) -> Seq<Seq<char>> {
    seq!["{"@, "  \"added\": ["@] + with_commas(added.map_values(|v: VarView| var_json(v)))
        + seq!["  ],"@, "  \"removed\": ["@] + with_commas(
        removed.map_values(|v: VarView| var_json(v)),
    ) + seq!["  ],"@, "  \"changed\": ["@] + with_commas(
        changed.map_values(|c: ChangedView| change_json(c)),
    ) + seq!["  ]"@, "}"@]
}

/// Writing two runs of lines writes the one after the other.
pub proof fn lemma_text_of_lines_concat(a: Seq<Seq<char>>, b: Seq<Seq<char>>)
    ensures
        text_of_lines(a + b) == text_of_lines(a) + text_of_lines(b),
    decreases b.len(),
{
    if b.len() == 0 {
        assert(a + b =~= a);
    } else {
        lemma_text_of_lines_concat(a, b.drop_last());
        assert((a + b).drop_last() =~= a + b.drop_last());
        assert((a + b).last() == b.last());
    }
}

/// Two lines are written one after the other.
proof fn lemma_two_lines(a: Seq<char>, b: Seq<char>)
    ensures
        text_of_lines(seq![a, b]) == a + "\n"@ + b + "\n"@,
{
    let l = seq![a, b];
    assert(l.drop_last() =~= seq![a]);
    assert(seq![a].drop_last() =~= Seq::<Seq<char>>::empty());
    assert(text_of_lines(Seq::<Seq<char>>::empty()) == Seq::<char>::empty());
    assert(seq![a].last() == a);
    assert(text_of_lines(seq![a]) =~= a + "\n"@);
    assert(text_of_lines(l) =~= a + "\n"@ + b + "\n"@);
}

/// Appends `line` and a newline.
fn push_line(out: &mut String, line: &str)
    ensures
        final(out)@ == old(out)@ + line@ + "\n"@,
{
    out.append(line);
    out.append("\n");
}

/// Appends the lines for added or removed variables.
fn push_var_items(out: &mut String, items: &Vec<EnvVar>)
    ensures
        final(out)@ == old(out)@ + text_of_lines(
            with_commas(views(items@).map_values(|v: VarView| var_json(v))),
        ),
{
    let ghost start = out@;
    let ghost w = with_commas(views(items@).map_values(|v: VarView| var_json(v)));
    let n = items.len();
    let mut t: usize = 0;
    assert(w.take(0) =~= Seq::<Seq<char>>::empty());
    while t < n
        invariant
            t <= n,
            n == items.len(),
            w == with_commas(views(items@).map_values(|v: VarView| var_json(v))),
            out@ == start + text_of_lines(w.take(t as int)),
        decreases n - t,
    {
        let v = &items[t];
        let mut line = String::new();
        line.append("    {\"key\": \"");
        push_json_escaped(&mut line, v.key.as_str());
        line.append("\", \"value\": \"");
        push_json_escaped(&mut line, v.value.as_str());
        line.append("\"}");
        if t + 1 < n {
            line.append(",");
        }
        proof {
            assert(views(items@)[t as int] == items@[t as int]@);
            assert(line@ =~= w[t as int]);
            assert(w.take(t + 1).drop_last() =~= w.take(t as int));
        }
        push_line(out, line.as_str());
        assert(out@ =~= start + text_of_lines(w.take(t + 1)));
        t = t + 1;
    }
    assert(w.take(n as int) =~= w);
}

/// Appends the lines for changed variables.
fn push_change_items(out: &mut String, items: &Vec<ChangedVar>)
    ensures
        final(out)@ == old(out)@ + text_of_lines(
            with_commas(changed_views(items@).map_values(|c: ChangedView| change_json(c))),
        ),
{
    let ghost start = out@;
    let ghost w = with_commas(changed_views(items@).map_values(|c: ChangedView| change_json(c)));
    let n = items.len();
    let mut t: usize = 0;
    assert(w.take(0) =~= Seq::<Seq<char>>::empty());
    while t < n
        invariant
            t <= n,
            n == items.len(),
            w == with_commas(changed_views(items@).map_values(|c: ChangedView| change_json(c))),
            out@ == start + text_of_lines(w.take(t as int)),
        decreases n - t,
    {
        let c = &items[t];
        let mut line = String::new();
        line.append("    {\"key\": \"");
        push_json_escaped(&mut line, c.key.as_str());
        line.append("\", \"old_value\": \"");
        push_json_escaped(&mut line, c.old_value.as_str());
        line.append("\", \"new_value\": \"");
        push_json_escaped(&mut line, c.new_value.as_str());
        line.append("\"}");
        if t + 1 < n {
            line.append(",");
        }
        proof {
            assert(changed_views(items@)[t as int] == items@[t as int]@);
            assert(line@ =~= w[t as int]);
            assert(w.take(t + 1).drop_last() =~= w.take(t as int));
        }
        push_line(out, line.as_str());
        assert(out@ =~= start + text_of_lines(w.take(t + 1)));
        t = t + 1;
    }
    assert(w.take(n as int) =~= w);
}

/// The JSON text that `diff --format json` prints, one line per newline.
#[verifier::rlimit(60)]
pub fn diff_json(diff: &EnvDiff) -> (r: String)
    ensures
        r@ == text_of_lines(
            diff_json_lines(views(diff.added@), views(diff.removed@), changed_views(diff.changed@)),
        ),
{
    let ghost wa = with_commas(views(diff.added@).map_values(|v: VarView| var_json(v)));
    let ghost wr = with_commas(views(diff.removed@).map_values(|v: VarView| var_json(v)));
    let ghost wc = with_commas(
        changed_views(diff.changed@).map_values(|c: ChangedView| change_json(c)),
    );
    let mut out = String::new();
    push_line(&mut out, "{");
    push_line(&mut out, "  \"added\": [");
    push_var_items(&mut out, &diff.added);
    push_line(&mut out, "  ],");
    push_line(&mut out, "  \"removed\": [");
    push_var_items(&mut out, &diff.removed);
    push_line(&mut out, "  ],");
    push_line(&mut out, "  \"changed\": [");
    push_change_items(&mut out, &diff.changed);
    push_line(&mut out, "  ]");
    push_line(&mut out, "}");
    proof {
        let l1 = seq!["{"@, "  \"added\": ["@];
        let l2 = seq!["  ],"@, "  \"removed\": ["@];
        let l3 = seq!["  ],"@, "  \"changed\": ["@];
        let l4 = seq!["  ]"@, "}"@];
        lemma_two_lines("{"@, "  \"added\": ["@);
        lemma_two_lines("  ],"@, "  \"removed\": ["@);
        lemma_two_lines("  ],"@, "  \"changed\": ["@);
        lemma_two_lines("  ]"@, "}"@);
        lemma_text_of_lines_concat(l1, wa);
        lemma_text_of_lines_concat(l1 + wa, l2);
        lemma_text_of_lines_concat(l1 + wa + l2, wr);
        lemma_text_of_lines_concat(l1 + wa + l2 + wr, l3);
        lemma_text_of_lines_concat(l1 + wa + l2 + wr + l3, wc);
        lemma_text_of_lines_concat(l1 + wa + l2 + wr + l3 + wc, l4);
        assert(diff_json_lines(views(diff.added@), views(diff.removed@), changed_views(diff.changed@))
            =~= l1 + wa + l2 + wr + l3 + wc + l4);
        assert(out@ =~= text_of_lines(l1 + wa + l2 + wr + l3 + wc + l4));
    }
    out
}


// ---------------------------------------------------------------------------
// Text for `diff`
// ---------------------------------------------------------------------------

/// How a piece of the diff text is shown.
#[derive(Debug, Clone, Copy, PartialEq, Eq)]
pub enum Style {
    Plain,
    Bold,
    Green,
    GreenBold,
    Red,
    RedBold,
    Yellow,
    YellowBold,
    Cyan,
    Dimmed,
}

/// A piece of text in one style.
pub struct Span {
    pub text: String,
    pub style: Style,
}

/// The content of a line of spans.
pub open spec fn line_view(line: Seq<Span>) -> Seq<(Seq<char>, Style)> {
    line.map_values(|sp: Span| (sp.text@, sp.style))
}

/// The content of lines of spans.
pub open spec fn lines_view(lines: Seq<Vec<Span>>) -> Seq<Seq<(Seq<char>, Style)>> {
    lines.map_values(|l: Vec<Span>| line_view(l@))
}

/// The decimal digits of `n`.
pub open spec fn decimal_text(n: nat) -> Seq<char>
    decreases n,
{
    if n < 10 {
        seq![hex_digit(n as int)]
    } else {
        decimal_text(n / 10) + seq![hex_digit((n % 10) as int)]
    }
}

/// The decimal digits of `n`.
pub fn usize_text(n: usize) -> (r: String)
    ensures
        r@ == decimal_text(n as nat),
    decreases n,
{
    let digits = vec!['0', '1', '2', '3', '4', '5', '6', '7', '8', '9'];
    assert(forall|d: int| 0 <= d < 10 ==> digits@[d] == hex_digit(d));
    if n < 10 {
        let mut r = String::new();
        push_char(&mut r, digits[n]);
        assert(r@ =~= decimal_text(n as nat));
        r
    } else {
        let mut r = usize_text(n / 10);
        push_char(&mut r, digits[n % 10]);
        r
    }
}

/// The digit for a value below ten.
proof fn lemma_digit_value(d: int)
    requires
        0 <= d < 10,
    ensures
        is_digit(hex_digit(d)),
        hex_digit(d) as int - '0' as int == d,
{
    let digits = seq!['0', '1', '2', '3', '4', '5', '6', '7', '8', '9', 'a', 'b', 'c', 'd', 'e', 'f'];
    assert(hex_digit(d) == digits[d]);
    if d == 0 {
    } else if d == 1 {
    } else if d == 2 {
    } else if d == 3 {
    } else if d == 4 {
    } else if d == 5 {
    } else if d == 6 {
    } else if d == 7 {
    } else if d == 8 {
    } else {
        assert(d == 9);
    }
}

/// The decimal text of `n` is the usual one: digits only, spelling `n`,
/// with no leading zero unless `n` is zero.
pub proof fn lemma_decimal_text_spells(n: nat)
    ensures
        decimal_text(n).len() > 0,
        all_digits(decimal_text(n)),
        decimal_value(decimal_text(n)) == n,
        decimal_text(n)[0] == '0' ==> n == 0,
    decreases n,
{
    if n < 10 {
        lemma_digit_value(n as int);
        let t = decimal_text(n);
        assert(t.drop_last() =~= Seq::<char>::empty());
        assert(decimal_value(t.drop_last()) == 0);
        assert(t.last() == hex_digit(n as int));
    } else {
        lemma_decimal_text_spells(n / 10);
        lemma_digit_value((n % 10) as int);
        let head = decimal_text(n / 10);
        let t = decimal_text(n);
        assert(t == head + seq![hex_digit((n % 10) as int)]);
        assert(t.drop_last() =~= head);
        assert(t[0] == head[0]);
        assert forall|i: int| 0 <= i < t.len() implies is_digit(#[trigger] t[i]) by {
            if i < head.len() {
                assert(t[i] == head[i]);
            }
        }
        assert(t.last() == hex_digit((n % 10) as int));
        assert(decimal_value(t) == decimal_value(head) * 10 + (n % 10));
        assert(n == (n / 10) * 10 + n % 10);
    }
}

/// A number written in decimal is a valid port exactly when it lies
/// between 1 and 65535.
pub proof fn lemma_port_numbers(n: nat)
    ensures
        rule_holds(RuleView::Port, decimal_text(n)) <==> 1 <= n <= 65535,
{
    lemma_decimal_text_spells(n);
    assert(is_digit(decimal_text(n)[0]));
}

/// A number written in decimal, with or without a minus sign, is a valid
/// integer exactly when it fits in an `i64`.
pub proof fn lemma_integer_numbers(n: nat)
    ensures
        rule_holds(RuleView::Integer, decimal_text(n)) <==> n <= i64::MAX,
        rule_holds(RuleView::Integer, seq!['-'] + decimal_text(n)) <==> n <= 0x8000_0000_0000_0000,
{
    lemma_decimal_text_spells(n);
    let d = decimal_text(n);
    assert(is_digit(d[0]));
    assert((seq!['-'] + d).drop_first() =~= d);
}

/// The line for one added or removed variable.
pub open spec fn var_text(sign: Seq<char>, style: Style, v: VarView) -> Seq<(Seq<char>, Style)> {
    seq![
        ("    "@, Style::Plain),
        (sign, style),
        (" "@, Style::Plain),
        (v.key, Style::Cyan),
        ("="@, Style::Plain),
        (v.value, Style::Plain),
    ]
}

/// The line for one changed variable.
pub open spec fn change_text(c: ChangedView) -> Seq<(Seq<char>, Style)> {
    seq![
        ("    "@, Style::Plain),
        ("~"@, Style::Yellow),
        (" "@, Style::Plain),
        (c.key, Style::Cyan),
        (": "@, Style::Plain),
        (c.old_value, Style::Dimmed),
        (" → "@, Style::Plain),
        (c.new_value, Style::Plain),
    ]
}

/// A titled section: the title with the count, the body, a blank line;
/// nothing when the body is empty.
pub open spec fn section(title: Seq<char>, style: Style, body: Seq<Seq<(Seq<char>, Style)>>) -> Seq<
    Seq<(Seq<char>, Style)>,
> {
    if body.len() == 0 {
        Seq::empty()
    } else {
        seq![
            seq![
                ("  "@, Style::Plain),
                (title, style),
                (" ("@, Style::Plain),
                (decimal_text(body.len()), Style::Plain),
                ("):"@, Style::Plain),
            ],
        ] + body + seq![Seq::<(Seq<char>, Style)>::empty()]
    }
}

/// The lines of the text form of a diff between the files named `base`
/// and `target`.
pub open spec fn diff_text_lines(
    base: Seq<char>,
    target: Seq<char>,
    added: Seq<VarView>,
    removed: Seq<VarView>,
    changed: Seq<ChangedView>,
    unchanged: nat,
) -> Seq<Seq<(Seq<char>, Style)>> {
    let header = seq![
        seq![
            ("Diff:"@, Style::Bold),
            (" "@, Style::Plain),
            (base, Style::Plain),
            (" vs "@, Style::Plain),
            (target, Style::Plain),
        ],
        Seq::<(Seq<char>, Style)>::empty(),
    ];
    if added.len() == 0 && removed.len() == 0 && changed.len() == 0 {
        header + seq![seq![("  "@, Style::Plain), ("No differences found."@, Style::Green)]]
    } else {
        header + section(
            "Added"@,
            Style::GreenBold,
            added.map_values(|v: VarView| var_text("+"@, Style::Green, v)),
        ) + section(
            "Removed"@,
            Style::RedBold,
            removed.map_values(|v: VarView| var_text("-"@, Style::Red, v)),
        ) + section(
            "Changed"@,
            Style::YellowBold,
            changed.map_values(|c: ChangedView| change_text(c)),
        ) + seq![
            seq![
                ("  "@, Style::Plain),
                ("="@, Style::Dimmed),
                (" "@, Style::Plain),
                (decimal_text(unchanged), Style::Plain),
                (" variables unchanged"@, Style::Plain),
            ],
        ]
    }
}

/// A span of `text` in `style`.
fn span(text: &str, style: Style) -> (r: Span)
    ensures
        r.text@ == text@,
        r.style == style,
{
    Span { text: text.to_owned(), style }
}

/// Appends a titled section.
fn push_section(
    lines: &mut Vec<Vec<Span>>,
    title: &str,
    style: Style,
    body: Vec<Vec<Span>>,
)
    ensures
        lines_view(final(lines)@) == lines_view(old(lines)@) + section(
            title@,
            style,
            lines_view(body@),
        ),
{
    if body.len() == 0 {
        assert(lines_view(lines@) =~= lines_view(lines@) + Seq::<Seq<(Seq<char>, Style)>>::empty());
        return;
    }
    let ghost start = lines_view(lines@);
    let ghost b = lines_view(body@);
    let mut head: Vec<Span> = Vec::new();
    head.push(span("  ", Style::Plain));
    head.push(span(title, style));
    head.push(span(" (", Style::Plain));
    head.push(Span { text: usize_text(body.len()), style: Style::Plain });
    head.push(span("):", Style::Plain));
    assert(line_view(head@) =~= seq![
        ("  "@, Style::Plain),
        (title@, style),
        (" ("@, Style::Plain),
        (decimal_text(b.len()), Style::Plain),
        ("):"@, Style::Plain),
    ]);
    lines.push(head);
    let mut body = body;
    let ghost mid = lines_view(lines@);
    lines.append(&mut body);
    assert(lines_view(lines@) =~= mid + b);
    let blank: Vec<Span> = Vec::new();
    assert(line_view(blank@) =~= Seq::<(Seq<char>, Style)>::empty());
    lines.push(blank);
    assert(lines_view(lines@) =~~= start + section(title@, style, b));
}

/// The lines for added or removed variables, marked with `sign`.
fn var_lines(items: &Vec<EnvVar>, sign: &str, style: Style) -> (r: Vec<Vec<Span>>)
    ensures
        lines_view(r@) == views(items@).map_values(|v: VarView| var_text(sign@, style, v)),
{
    let ghost want = views(items@).map_values(|v: VarView| var_text(sign@, style, v));
    let mut r: Vec<Vec<Span>> = Vec::new();
    let mut i: usize = 0;
    while i < items.len()
        invariant
            i <= items.len(),
            want == views(items@).map_values(|v: VarView| var_text(sign@, style, v)),
            lines_view(r@) == want.take(i as int),
            r.len() == i,
        decreases items.len() - i,
    {
        let v = &items[i];
        let mut line: Vec<Span> = Vec::new();
        line.push(span("    ", Style::Plain));
        line.push(span(sign, style));
        line.push(span(" ", Style::Plain));
        line.push(Span { text: v.key.clone(), style: Style::Cyan });
        line.push(span("=", Style::Plain));
        line.push(Span { text: v.value.clone(), style: Style::Plain });
        assert(views(items@)[i as int] == items@[i as int]@);
        assert(line_view(line@) =~= want[i as int]);
        let ghost lv = line@;
        let ghost old_r = r@;
        r.push(line);
        assert(r@[i as int]@ == lv);
        assert(lines_view(r@)[i as int] == want[i as int]);
        assert(forall|j: int| 0 <= j < i ==> r@[j] == old_r[j]);
        assert(lines_view(r@) =~= want.take(i + 1));
        i = i + 1;
    }
    assert(want.take(items.len() as int) =~= want);
    r
}

/// The lines for changed variables.
fn change_lines(items: &Vec<ChangedVar>) -> (r: Vec<Vec<Span>>)
    ensures
        lines_view(r@) == changed_views(items@).map_values(|c: ChangedView| change_text(c)),
{
    let ghost want = changed_views(items@).map_values(|c: ChangedView| change_text(c));
    let mut r: Vec<Vec<Span>> = Vec::new();
    let mut i: usize = 0;
    while i < items.len()
        invariant
            i <= items.len(),
            want == changed_views(items@).map_values(|c: ChangedView| change_text(c)),
            lines_view(r@) == want.take(i as int),
            r.len() == i,
        decreases items.len() - i,
    {
        let c = &items[i];
        let mut line: Vec<Span> = Vec::new();
        line.push(span("    ", Style::Plain));
        line.push(span("~", Style::Yellow));
        line.push(span(" ", Style::Plain));
        line.push(Span { text: c.key.clone(), style: Style::Cyan });
        line.push(span(": ", Style::Plain));
        line.push(Span { text: c.old_value.clone(), style: Style::Dimmed });
        line.push(span(" → ", Style::Plain));
        line.push(Span { text: c.new_value.clone(), style: Style::Plain });
        assert(changed_views(items@)[i as int] == items@[i as int]@);
        assert(line_view(line@) =~= want[i as int]);
        let ghost lv = line@;
        let ghost old_r = r@;
        r.push(line);
        assert(r@[i as int]@ == lv);
        assert(lines_view(r@)[i as int] == want[i as int]);
        assert(forall|j: int| 0 <= j < i ==> r@[j] == old_r[j]);
        assert(lines_view(r@) =~= want.take(i + 1));
        i = i + 1;
    }
    assert(want.take(items.len() as int) =~= want);
    r
}

/// The text that `diff` prints for the files named `base` and `target`, as
/// lines of styled spans.
pub fn diff_text(base: &str, target: &str, diff: &EnvDiff) -> (r: Vec<Vec<Span>>)
    ensures
        lines_view(r@) == diff_text_lines(
            base@,
            target@,
            views(diff.added@),
            views(diff.removed@),
            changed_views(diff.changed@),
            diff.unchanged.len() as nat,
        ),
{
    let mut lines: Vec<Vec<Span>> = Vec::new();
    let mut head: Vec<Span> = Vec::new();
    head.push(span("Diff:", Style::Bold));
    head.push(span(" ", Style::Plain));
    head.push(span(base, Style::Plain));
    head.push(span(" vs ", Style::Plain));
    head.push(span(target, Style::Plain));
    lines.push(head);
    let blank: Vec<Span> = Vec::new();
    assert(line_view(blank@) =~= Seq::<(Seq<char>, Style)>::empty());
    lines.push(blank);
    let ghost header = lines_view(lines@);
    assert(header =~~= seq![
        seq![
            ("Diff:"@, Style::Bold),
            (" "@, Style::Plain),
            (base@, Style::Plain),
            (" vs "@, Style::Plain),
            (target@, Style::Plain),
        ],
        Seq::<(Seq<char>, Style)>::empty(),
    ]);
    if diff.added.len() == 0 && diff.removed.len() == 0 && diff.changed.len() == 0 {
        let mut l: Vec<Span> = Vec::new();
        l.push(span("  ", Style::Plain));
        l.push(span("No differences found.", Style::Green));
        lines.push(l);
        assert(lines_view(lines@) =~~= header + seq![
            seq![("  "@, Style::Plain), ("No differences found."@, Style::Green)],
        ]);
        return lines;
    }
    push_section(&mut lines, "Added", Style::GreenBold, var_lines(&diff.added, "+", Style::Green));
    push_section(&mut lines, "Removed", Style::RedBold, var_lines(&diff.removed, "-", Style::Red));
    push_section(&mut lines, "Changed", Style::YellowBold, change_lines(&diff.changed));
    let ghost before = lines_view(lines@);
    let mut foot: Vec<Span> = Vec::new();
    foot.push(span("  ", Style::Plain));
    foot.push(span("=", Style::Dimmed));
    foot.push(span(" ", Style::Plain));
    foot.push(Span { text: usize_text(diff.unchanged.len()), style: Style::Plain });
    foot.push(span(" variables unchanged", Style::Plain));
    lines.push(foot);
    assert(lines_view(lines@) =~~= before + seq![
        seq![
            ("  "@, Style::Plain),
            ("="@, Style::Dimmed),
            (" "@, Style::Plain),
            (decimal_text(diff.unchanged.len() as nat), Style::Plain),
            (" variables unchanged"@, Style::Plain),
        ],
    ]);
    lines
}

// ---------------------------------------------------------------------------
// Laws of the diff text
// ---------------------------------------------------------------------------

/// A section with a body: the title with the count, the body, a blank line.
proof fn lemma_section_shape(title: Seq<char>, style: Style, body: Seq<Seq<(Seq<char>, Style)>>)
    requires
        body.len() > 0,
    ensures
        section(title, style, body).len() == body.len() + 2,
        section(title, style, body)[0] == seq![
            ("  "@, Style::Plain),
            (title, style),
            (" ("@, Style::Plain),
            (decimal_text(body.len()), Style::Plain),
            ("):"@, Style::Plain),
        ],
        forall|j: int| 0 <= j < body.len() ==> section(title, style, body)[1 + j] == body[j],
        section(title, style, body)[body.len() as int + 1].len() == 0,
{
}

/// No line of a section has two spans when no line of its body has.
proof fn lemma_section_no_pair(
    title: Seq<char>,
    style: Style,
    body: Seq<Seq<(Seq<char>, Style)>>,
)
    requires
        forall|j: int| 0 <= j < body.len() ==> (#[trigger] body[j]).len() != 2,
    ensures
        forall|k: int|
            0 <= k < section(title, style, body).len() ==> (#[trigger] section(
                title,
                style,
                body,
            )[k]).len() != 2,
{
    if body.len() > 0 {
        let sec = section(title, style, body);
        lemma_section_shape(title, style, body);
        assert forall|k: int| 0 <= k < sec.len() implies (#[trigger] sec[k]).len() != 2 by {
            if 1 <= k <= body.len() {
                assert(sec[1 + (k - 1)] == body[k - 1]);
            }
        }
    }
}

/// No line of `a + b` has two spans when no line of `a` or of `b` has.
proof fn lemma_concat_no_pair(a: Seq<Seq<(Seq<char>, Style)>>, b: Seq<Seq<(Seq<char>, Style)>>)
    requires
        forall|k: int| 0 <= k < a.len() ==> (#[trigger] a[k]).len() != 2,
        forall|k: int| 0 <= k < b.len() ==> (#[trigger] b[k]).len() != 2,
    ensures
        forall|k: int| 0 <= k < (a + b).len() ==> (#[trigger] (a + b)[k]).len() != 2,
{
    assert forall|k: int| 0 <= k < (a + b).len() implies (#[trigger] (a + b)[k]).len() != 2 by {
        if k >= a.len() {
            assert((a + b)[k] == b[k - a.len()]);
        }
    }
}

/// The diff text says `No differences found.` exactly when the diff has no
/// added, no removed and no changed variables.
pub proof fn lemma_diff_text_no_differences(
    base: Seq<char>,
    target: Seq<char>,
    added: Seq<VarView>,
    removed: Seq<VarView>,
    changed: Seq<ChangedView>,
    unchanged: nat,
)
    ensures
        (exists|k: int|
            0 <= k < diff_text_lines(base, target, added, removed, changed, unchanged).len()
                && #[trigger] diff_text_lines(base, target, added, removed, changed, unchanged)[k]
                == seq![("  "@, Style::Plain), ("No differences found."@, Style::Green)])
            <==> (added.len() == 0 && removed.len() == 0 && changed.len() == 0),
{
    let lines = diff_text_lines(base, target, added, removed, changed, unchanged);
    let none = seq![("  "@, Style::Plain), ("No differences found."@, Style::Green)];
    if added.len() == 0 && removed.len() == 0 && changed.len() == 0 {
        assert(lines[2] == none);
    } else {
        let header = seq![
            seq![
                ("Diff:"@, Style::Bold),
                (" "@, Style::Plain),
                (base, Style::Plain),
                (" vs "@, Style::Plain),
                (target, Style::Plain),
            ],
            Seq::<(Seq<char>, Style)>::empty(),
        ];
        let ab = added.map_values(|v: VarView| var_text("+"@, Style::Green, v));
        let rb = removed.map_values(|v: VarView| var_text("-"@, Style::Red, v));
        let cb = changed.map_values(|c: ChangedView| change_text(c));
        let a = section("Added"@, Style::GreenBold, ab);
        let r = section("Removed"@, Style::RedBold, rb);
        let c = section("Changed"@, Style::YellowBold, cb);
        let foot = seq![
            seq![
                ("  "@, Style::Plain),
                ("="@, Style::Dimmed),
                (" "@, Style::Plain),
                (decimal_text(unchanged), Style::Plain),
                (" variables unchanged"@, Style::Plain),
            ],
        ];
        assert(lines == header + a + r + c + foot);
        assert forall|j: int| 0 <= j < ab.len() implies (#[trigger] ab[j]).len() != 2 by {}
        assert forall|j: int| 0 <= j < rb.len() implies (#[trigger] rb[j]).len() != 2 by {}
        assert forall|j: int| 0 <= j < cb.len() implies (#[trigger] cb[j]).len() != 2 by {}
        lemma_section_no_pair("Added"@, Style::GreenBold, ab);
        lemma_section_no_pair("Removed"@, Style::RedBold, rb);
        lemma_section_no_pair("Changed"@, Style::YellowBold, cb);
        assert forall|k: int| 0 <= k < header.len() implies (#[trigger] header[k]).len() != 2 by {}
        assert forall|k: int| 0 <= k < foot.len() implies (#[trigger] foot[k]).len() != 2 by {}
        lemma_concat_no_pair(header, a);
        lemma_concat_no_pair(header + a, r);
        lemma_concat_no_pair(header + a + r, c);
        lemma_concat_no_pair(header + a + r + c, foot);
        assert forall|k: int| 0 <= k < lines.len() implies #[trigger] lines[k] != none by {
            assert(lines[k].len() != 2);
        }
    }
}

/// Where the diff has added variables, the text lists them right after the
/// header: a title with their count, then one `+ KEY=VALUE` line each.
pub proof fn lemma_diff_text_lists_added(
    base: Seq<char>,
    target: Seq<char>,
    added: Seq<VarView>,
    removed: Seq<VarView>,
    changed: Seq<ChangedView>,
    unchanged: nat,
)
    requires
        added.len() > 0,
    ensures
        ({
            let lines = diff_text_lines(base, target, added, removed, changed, unchanged);
            &&& lines[2] == seq![
                ("  "@, Style::Plain),
                ("Added"@, Style::GreenBold),
                (" ("@, Style::Plain),
                (decimal_text(added.len()), Style::Plain),
                ("):"@, Style::Plain),
            ]
            &&& forall|j: int|
                0 <= j < added.len() ==> #[trigger] lines[3 + j] == seq![
                    ("    "@, Style::Plain),
                    ("+"@, Style::Green),
                    (" "@, Style::Plain),
                    (added[j].key, Style::Cyan),
                    ("="@, Style::Plain),
                    (added[j].value, Style::Plain),
                ]
        }),
{
    let ab = added.map_values(|v: VarView| var_text("+"@, Style::Green, v));
    lemma_section_shape("Added"@, Style::GreenBold, ab);
}

/// Where the diff has removed variables, the text lists them after the
/// added ones: a title with their count, then one `- KEY=VALUE` line each.
pub proof fn lemma_diff_text_lists_removed(
    base: Seq<char>,
    target: Seq<char>,
    added: Seq<VarView>,
    removed: Seq<VarView>,
    changed: Seq<ChangedView>,
    unchanged: nat,
)
    requires
        removed.len() > 0,
    ensures
        ({
            let lines = diff_text_lines(base, target, added, removed, changed, unchanged);
            let at: int = if added.len() == 0 {
                2
            } else {
                added.len() as int + 4
            };
            &&& lines[at] == seq![
                ("  "@, Style::Plain),
                ("Removed"@, Style::RedBold),
                (" ("@, Style::Plain),
                (decimal_text(removed.len()), Style::Plain),
                ("):"@, Style::Plain),
            ]
            &&& forall|j: int|
                0 <= j < removed.len() ==> #[trigger] lines[at + 1 + j] == seq![
                    ("    "@, Style::Plain),
                    ("-"@, Style::Red),
                    (" "@, Style::Plain),
                    (removed[j].key, Style::Cyan),
                    ("="@, Style::Plain),
                    (removed[j].value, Style::Plain),
                ]
        }),
{
    let ab = added.map_values(|v: VarView| var_text("+"@, Style::Green, v));
    let rb = removed.map_values(|v: VarView| var_text("-"@, Style::Red, v));
    if added.len() > 0 {
        lemma_section_shape("Added"@, Style::GreenBold, ab);
    }
    lemma_section_shape("Removed"@, Style::RedBold, rb);
}

/// Where the diff has changed variables, the text lists them after the
/// added and removed ones: a title with their count, then one
/// `~ KEY: OLD → NEW` line each.
pub proof fn lemma_diff_text_lists_changed(
    base: Seq<char>,
    target: Seq<char>,
    added: Seq<VarView>,
    removed: Seq<VarView>,
    changed: Seq<ChangedView>,
    unchanged: nat,
)
    requires
        changed.len() > 0,
    ensures
        ({
            let lines = diff_text_lines(base, target, added, removed, changed, unchanged);
            let at: int = 2 + (if added.len() == 0 {
                0
            } else {
                added.len() as int + 2
            }) + (if removed.len() == 0 {
                0
            } else {
                removed.len() as int + 2
            });
            &&& lines[at] == seq![
                ("  "@, Style::Plain),
                ("Changed"@, Style::YellowBold),
                (" ("@, Style::Plain),
                (decimal_text(changed.len()), Style::Plain),
                ("):"@, Style::Plain),
            ]
            &&& forall|j: int|
                0 <= j < changed.len() ==> #[trigger] lines[at + 1 + j] == seq![
                    ("    "@, Style::Plain),
                    ("~"@, Style::Yellow),
                    (" "@, Style::Plain),
                    (changed[j].key, Style::Cyan),
                    (": "@, Style::Plain),
                    (changed[j].old_value, Style::Dimmed),
                    (" → "@, Style::Plain),
                    (changed[j].new_value, Style::Plain),
                ]
        }),
{
    let ab = added.map_values(|v: VarView| var_text("+"@, Style::Green, v));
    let rb = removed.map_values(|v: VarView| var_text("-"@, Style::Red, v));
    let cb = changed.map_values(|c: ChangedView| change_text(c));
    if added.len() > 0 {
        lemma_section_shape("Added"@, Style::GreenBold, ab);
    }
    if removed.len() > 0 {
        lemma_section_shape("Removed"@, Style::RedBold, rb);
    }
    lemma_section_shape("Changed"@, Style::YellowBold, cb);
}

/// The text starts with a header that names both files, then a blank line.
pub proof fn lemma_diff_text_header(
    base: Seq<char>,
    target: Seq<char>,
    added: Seq<VarView>,
    removed: Seq<VarView>,
    changed: Seq<ChangedView>,
    unchanged: nat,
)
    ensures
        diff_text_lines(base, target, added, removed, changed, unchanged).len() >= 3,
        diff_text_lines(base, target, added, removed, changed, unchanged)[0] == seq![
            ("Diff:"@, Style::Bold),
            (" "@, Style::Plain),
            (base, Style::Plain),
            (" vs "@, Style::Plain),
            (target, Style::Plain),
        ],
        diff_text_lines(base, target, added, removed, changed, unchanged)[1].len() == 0,
{
}

/// Whenever the diff is not empty, the text ends with the count of
/// unchanged variables.
pub proof fn lemma_diff_text_ends_with_unchanged(
    base: Seq<char>,
    target: Seq<char>,
    added: Seq<VarView>,
    removed: Seq<VarView>,
    changed: Seq<ChangedView>,
    unchanged: nat,
)
    requires
        added.len() > 0 || removed.len() > 0 || changed.len() > 0,
    ensures
        diff_text_lines(base, target, added, removed, changed, unchanged).last() == seq![
            ("  "@, Style::Plain),
            ("="@, Style::Dimmed),
            (" "@, Style::Plain),
            (decimal_text(unchanged), Style::Plain),
            (" variables unchanged"@, Style::Plain),
        ],
{
}

} // verus!

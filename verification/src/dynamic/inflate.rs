//! Inflating: from a self-contained token sequence back to a tree.

use vstd::prelude::*;
use crate::dynamic::{
    column_view, nodes_view, tokens_view, CloseRule, CloseRuleView, ListedRule, ListedRuleView,
    NodeView, OpenRule, OpenRuleView, Rule, RuleView, RuleWithComment,
};
use crate::text::{clone_lines, clone_opt, lines_view};
use crate::ColumnConfig;

verus! {

/// A rule without comments.
pub open spec fn plain(r: RuleView) -> NodeView {
    NodeView { before_comments: Seq::empty(), rule: r, after_comment: None }
}

/// What the inflation of one unit yields: the tree, the column directive
/// where the unit was a column token, and the position behind the unit.
pub type Parsed = (NodeView, Option<ColumnConfig>, nat);

/// The units from position `c` up to the bracket `close`, and the position
/// of that bracket. `None` where a unit is malformed or the bracket missing.
pub open spec fn inflate_units(tokens: Seq<ListedRuleView>, c: nat, close: CloseRuleView) -> Option<
    (Seq<Parsed>, nat),
>
    decreases tokens.len() - c, 1nat,
{
    if c >= tokens.len() {
        None
    } else if tokens[c as int] == ListedRuleView::Close(close) {
        Some((Seq::empty(), c))
    } else {
        match inflate(tokens, c) {
            Some(unit) => if c < unit.2 <= tokens.len() {
                match inflate_units(tokens, unit.2, close) {
                    Some((rest, end)) => Some((seq![unit] + rest, end)),
                    None => None,
                }
            } else {
                None
            },
            None => None,
        }
    }
}

/// The trees of parsed units.
pub open spec fn unit_nodes(units: Seq<Parsed>) -> Seq<NodeView> {
    Seq::new(units.len(), |i: int| units[i].0)
}

/// Whether every parsed unit is a column token.
pub open spec fn all_column_tokens(units: Seq<Parsed>) -> bool {
    forall|i: int| 0 <= i < units.len() ==> (#[trigger] units[i]).1 is Some
}

/// Parsed column tokens with their directives.
pub open spec fn unit_tokens(units: Seq<Parsed>) -> Seq<(NodeView, ColumnConfig)> {
    Seq::new(units.len(), |i: int| (units[i].0, units[i].1.unwrap()))
}

/// The tree of the unit that starts at position `count` of a self-contained
/// token sequence. `None` where the sequence is malformed there: it ends, a
/// bracket does not match, a link or a closing bracket stands where a unit
/// must start, or a column holds a unit that is no column token.
pub open spec fn inflate(tokens: Seq<ListedRuleView>, count: nat) -> Option<Parsed>
    decreases tokens.len() - count, 0nat,
{
    if count >= tokens.len() {
        None
    } else {
        match tokens[count as int] {
            ListedRuleView::Raw(s) => Some((plain(RuleView::Raw(s)), None, count + 1)),
            ListedRuleView::Unconfirmed(tag) => Some(
                (plain(RuleView::Unconfirmed(tag)), None, count + 1),
            ),
            ListedRuleView::Open(OpenRuleView::List(_, join)) => match inflate_units(
                tokens,
                count + 1,
                CloseRuleView::List,
            ) {
                Some((units, end)) => Some(
                    (plain(RuleView::List(None, join, unit_nodes(units))), None, end + 1),
                ),
                None => None,
            },
            ListedRuleView::Open(OpenRuleView::Column(_)) => match inflate_units(
                tokens,
                count + 1,
                CloseRuleView::Column,
            ) {
                Some((units, end)) => if all_column_tokens(units) {
                    Some((plain(RuleView::Column(None, unit_tokens(units))), None, end + 1))
                } else {
                    None
                },
                None => None,
            },
            ListedRuleView::Open(OpenRuleView::Paren(_, open, before)) => match inflate(
                tokens,
                count + 1,
            ) {
                Some(inner) => if inner.2 < tokens.len() {
                    match tokens[inner.2 as int] {
                        ListedRuleView::Close(CloseRuleView::Paren(close, after)) => Some(
                            (
                                plain(
                                    RuleView::Paren(
                                        None,
                                        open,
                                        Box::new(
                                            NodeView {
                                                before_comments: before,
                                                rule: inner.0.rule,
                                                after_comment: after,
                                            },
                                        ),
                                        close,
                                    ),
                                ),
                                None,
                                inner.2 + 1,
                            ),
                        ),
                        _ => None,
                    }
                } else {
                    None
                },
                None => None,
            },
            ListedRuleView::Open(OpenRuleView::Contents(before)) => match inflate(
                tokens,
                count + 1,
            ) {
                Some(inner) => if inner.2 < tokens.len() {
                    match tokens[inner.2 as int] {
                        ListedRuleView::Close(CloseRuleView::Contents(after)) => Some(
                            (
                                plain(
                                    if before.len() == 0 && after is None {
                                        inner.0.rule
                                    } else {
                                        RuleView::AST(
                                            Box::new(
                                                NodeView {
                                                    before_comments: before,
                                                    rule: inner.0.rule,
                                                    after_comment: after,
                                                },
                                            ),
                                        )
                                    },
                                ),
                                None,
                                inner.2 + 1,
                            ),
                        ),
                        _ => None,
                    }
                } else {
                    None
                },
                None => None,
            },
            ListedRuleView::Open(OpenRuleView::ColumnContents(config, before)) => match inflate(
                tokens,
                count + 1,
            ) {
                Some(inner) => if inner.2 < tokens.len() {
                    match tokens[inner.2 as int] {
                        ListedRuleView::Close(CloseRuleView::ColumnContents(after)) => Some(
                            (
                                NodeView {
                                    before_comments: before,
                                    rule: inner.0.rule,
                                    after_comment: after,
                                },
                                Some(config),
                                inner.2 + 1,
                            ),
                        ),
                        _ => None,
                    }
                } else {
                    None
                },
                None => None,
            },
            _ => None,
        }
    }
}

/// `r` without comments.
pub(crate) fn with_comment(r: Rule) -> (n: RuleWithComment)
    ensures
        n@ == plain(r@),
{
    let before_comments: Vec<String> = Vec::new();
    assert(lines_view(before_comments@) =~= Seq::empty());
    RuleWithComment { before_comments, rule: r, after_comment: None }
}

/// What a parse handed back: the tree, the column directive, the position.
pub open spec fn parsed_view(p: (RuleWithComment, Option<ColumnConfig>, usize)) -> Parsed {
    (p.0@, p.1, p.2 as nat)
}

/// The parsed units of a list of parses.
pub open spec fn parsed_units(v: Seq<(RuleWithComment, Option<ColumnConfig>, usize)>) -> Seq<
    Parsed,
> {
    Seq::new(v.len(), |i: int| parsed_view(v[i]))
}

/// Parses the units from position `start` up to the bracket `close`.
fn parse_units(listed_rules: &[ListedRule], start: usize, close: &CloseRule) -> (r: Option<
    (Vec<(RuleWithComment, Option<ColumnConfig>, usize)>, usize),
>)
    requires
        close@ == CloseRuleView::List || close@ == CloseRuleView::Column,
    ensures
        match r {
            Some(p) => inflate_units(tokens_view(listed_rules@), start as nat, close@) == Some(
                (parsed_units(p.0@), p.1 as nat),
            ) && start <= p.1 < listed_rules@.len(),
            None => inflate_units(tokens_view(listed_rules@), start as nat, close@) is None,
        },
    decreases listed_rules@.len() - start, 1nat,
{
    let ghost tokens = tokens_view(listed_rules@);
    let mut v: Vec<(RuleWithComment, Option<ColumnConfig>, usize)> = Vec::new();
    let mut c = start;
    assert(parsed_units(v@) =~= Seq::empty());
    loop
        invariant
            start <= c,
            close@ == CloseRuleView::List || close@ == CloseRuleView::Column,
            tokens == tokens_view(listed_rules@),
            inflate_units(tokens, start as nat, close@) == match inflate_units(
                tokens,
                c as nat,
                close@,
            ) {
                Some((rest, end)) => Some((parsed_units(v@) + rest, end)),
                None => None,
            },
        decreases listed_rules@.len() - c,
    {
        if c >= listed_rules.len() {
            return None;
        }
        if closes(&listed_rules[c], close) {
            assert(parsed_units(v@) + Seq::<Parsed>::empty() =~= parsed_units(v@));
            return Some((v, c));
        }
        match parse_listedrule(listed_rules, c) {
            Some(unit) => {
                let ghost before = parsed_units(v@);
                let ghost u = parsed_view(unit);
                let next = unit.2;
                v.push(unit);
                assert(parsed_units(v@) =~= before.push(u));
                assert forall|rest: Seq<Parsed>|
                    before + (seq![u] + rest) == #[trigger] (before.push(u) + rest) by {
                    assert(before + (seq![u] + rest) =~= before.push(u) + rest);
                }
                c = next;
            },
            None => {
                return None;
            },
        }
    }
}

/// Whether `t` is the closing bracket `close`.
fn closes(t: &ListedRule, close: &CloseRule) -> (r: bool)
    requires
        close@ == CloseRuleView::List || close@ == CloseRuleView::Column,
    ensures
        r == (t@ == ListedRuleView::Close(close@)),
{
    match t {
        ListedRule::Close(CloseRule::List) => match close {
            CloseRule::List => true,
            _ => false,
        },
        ListedRule::Close(CloseRule::Column) => match close {
            CloseRule::Column => true,
            _ => false,
        },
        _ => false,
    }
}

/// The parses of `units` in reverse order.
fn reversed(units: Vec<(RuleWithComment, Option<ColumnConfig>, usize)>) -> (rev: Vec<
    (RuleWithComment, Option<ColumnConfig>, usize),
>)
    ensures
        rev@.len() == units@.len(),
        forall|k: int|
            0 <= k < rev@.len() ==> parsed_view(#[trigger] rev@[k]) == parsed_view(
                units@[units@.len() - 1 - k],
            ),
{
    let ghost all = units@;
    let mut units = units;
    let mut rev: Vec<(RuleWithComment, Option<ColumnConfig>, usize)> = Vec::new();
    while units.len() > 0
        invariant
            units@.len() + rev@.len() == all.len(),
            forall|k: int| 0 <= k < units@.len() ==> #[trigger] units@[k] == all[k],
            forall|k: int|
                0 <= k < rev@.len() ==> #[trigger] rev@[k] == all[all.len() - 1 - k],
        decreases units@.len(),
    {
        match units.pop() {
            Some(unit) => {
                rev.push(unit);
            },
            None => {},
        }
    }
    rev
}

/// The trees of parsed units, in their order.
fn into_nodes(units: Vec<(RuleWithComment, Option<ColumnConfig>, usize)>) -> (v: Vec<
    RuleWithComment,
>)
    ensures
        nodes_view(v@) == unit_nodes(parsed_units(units@)),
{
    let ghost parsed = parsed_units(units@);
    let mut rev = reversed(units);
    let mut v: Vec<RuleWithComment> = Vec::new();
    while rev.len() > 0
        invariant
            v@.len() + rev@.len() == parsed.len(),
            forall|k: int|
                0 <= k < rev@.len() ==> parsed_view(#[trigger] rev@[k]) == parsed[parsed.len() - 1
                    - k],
            forall|k: int| 0 <= k < v@.len() ==> (#[trigger] v@[k])@ == parsed[k].0,
        decreases rev@.len(),
    {
        let ghost last = rev@[rev@.len() - 1];
        assert(parsed_view(last) == parsed[v@.len() as int]);
        match rev.pop() {
            Some(unit) => {
                v.push(unit.0);
            },
            None => {},
        }
    }
    assert(nodes_view(v@) =~= unit_nodes(parsed));
    v
}

/// Parsed units as column tokens with their directives; `None` where one of
/// them is no column token.
fn into_column_tokens(units: Vec<(RuleWithComment, Option<ColumnConfig>, usize)>) -> (r: Option<
    Vec<(RuleWithComment, ColumnConfig)>,
>)
    ensures
        match r {
            Some(v) => all_column_tokens(parsed_units(units@)) && column_view(v@) == unit_tokens(
                parsed_units(units@),
            ),
            None => !all_column_tokens(parsed_units(units@)),
        },
{
    let ghost parsed = parsed_units(units@);
    let mut rev = reversed(units);
    let mut v: Vec<(RuleWithComment, ColumnConfig)> = Vec::new();
    while rev.len() > 0
        invariant
            parsed == parsed_units(units@),
            v@.len() + rev@.len() == parsed.len(),
            forall|k: int|
                0 <= k < rev@.len() ==> parsed_view(#[trigger] rev@[k]) == parsed[parsed.len() - 1
                    - k],
            forall|k: int|
                0 <= k < v@.len() ==> (#[trigger] v@[k]).0@ == parsed[k].0 && parsed[k].1 == Some(
                    v@[k].1,
                ),
        decreases rev@.len(),
    {
        let ghost at = v@.len() as int;
        let ghost last = rev@[rev@.len() - 1];
        assert(parsed_view(last) == parsed[at]);
        match rev.pop() {
            Some(unit) => {
                match unit.1 {
                    Some(config) => {
                        v.push((unit.0, config));
                    },
                    None => {
                        assert(parsed[at].1 is None);
                        return None;
                    },
                }
            },
            None => {},
        }
    }
    assert forall|i: int| 0 <= i < parsed.len() implies (#[trigger] parsed[i]).1 is Some by {
        assert(v@[i].0@ == parsed[i].0);
    }
    assert(column_view(v@) =~= unit_tokens(parsed));
    Some(v)
}

/// Rebuilds the tree of the unit that starts at position `count`; `None`
/// where the sequence is malformed there.
pub fn parse_listedrule(listed_rules: &[ListedRule], count: usize) -> (r: Option<
    (RuleWithComment, Option<ColumnConfig>, usize),
>)
    ensures
        match r {
            Some(p) => inflate(tokens_view(listed_rules@), count as nat) == Some(parsed_view(p))
                && count < p.2 <= listed_rules@.len(),
            None => inflate(tokens_view(listed_rules@), count as nat) is None,
        },
    decreases listed_rules@.len() - count, 0nat,
{
    if count >= listed_rules.len() {
        return None;
    }
    let ghost tokens = tokens_view(listed_rules@);
    assert(tokens[count as int] == listed_rules@[count as int]@);
    match &listed_rules[count] {
        ListedRule::Raw(s) => Some((with_comment(Rule::Raw(s.clone())), None, count + 1)),
        ListedRule::Unconfirmed(tag) => Some(
            (with_comment(Rule::Unconfirmed(tag.clone())), None, count + 1),
        ),
        ListedRule::Open(OpenRule::List(_, join)) => {
            match parse_units(listed_rules, count + 1, &CloseRule::List) {
                Some((units, end)) => {
                    let v = into_nodes(units);
                    Some((with_comment(Rule::List(None, join.clone(), v)), None, end + 1))
                },
                None => None,
            }
        },
        ListedRule::Open(OpenRule::Column(_)) => {
            match parse_units(listed_rules, count + 1, &CloseRule::Column) {
                Some((units, end)) => match into_column_tokens(units) {
                    Some(v) => Some((with_comment(Rule::Column(None, v)), None, end + 1)),
                    None => None,
                },
                None => None,
            }
        },
        ListedRule::Open(OpenRule::Paren(_, open_str, before_comments)) => {
            match parse_listedrule(listed_rules, count + 1) {
                Some((inner, _, c)) => {
                    if c >= listed_rules.len() {
                        return None;
                    }
                    assert(tokens[c as int] == listed_rules@[c as int]@);
                    match &listed_rules[c] {
                        ListedRule::Close(CloseRule::Paren(close_str, after_comment)) => {
                            let content = RuleWithComment {
                                before_comments: clone_lines(before_comments),
                                rule: inner.rule,
                                after_comment: clone_opt(after_comment),
                            };
                            let rule = Rule::Paren(
                                None,
                                open_str.clone(),
                                Box::new(content),
                                close_str.clone(),
                            );
                            Some((with_comment(rule), None, c + 1))
                        },
                        _ => None,
                    }
                },
                None => None,
            }
        },
        ListedRule::Open(OpenRule::Contents(before_comments)) => {
            match parse_listedrule(listed_rules, count + 1) {
                Some((inner, _, c)) => {
                    if c >= listed_rules.len() {
                        return None;
                    }
                    assert(tokens[c as int] == listed_rules@[c as int]@);
                    match &listed_rules[c] {
                        ListedRule::Close(CloseRule::Contents(after_comment)) => {
                            let rule = if before_comments.len() == 0 && after_comment.is_none() {
                                inner.rule
                            } else {
                                Rule::AST(
                                    Box::new(
                                        RuleWithComment {
                                            before_comments: clone_lines(before_comments),
                                            rule: inner.rule,
                                            after_comment: clone_opt(after_comment),
                                        },
                                    ),
                                )
                            };
                            Some((with_comment(rule), None, c + 1))
                        },
                        _ => None,
                    }
                },
                None => None,
            }
        },
        ListedRule::Open(OpenRule::ColumnContents(column_config, before_comments)) => {
            match parse_listedrule(listed_rules, count + 1) {
                Some((inner, _, c)) => {
                    if c >= listed_rules.len() {
                        return None;
                    }
                    assert(tokens[c as int] == listed_rules@[c as int]@);
                    match &listed_rules[c] {
                        ListedRule::Close(CloseRule::ColumnContents(after_comment)) => {
                            let node = RuleWithComment {
                                before_comments: clone_lines(before_comments),
                                rule: inner.rule,
                                after_comment: clone_opt(after_comment),
                            };
                            Some((node, Some(*column_config), c + 1))
                        },
                        _ => None,
                    }
                },
                None => None,
            }
        },
        _ => None,
    }
}

/// Rebuilds the tree of the unit that starts at position `count` of a
/// self-contained token sequence: the tree, the column directive where the
/// unit is a column token, and the position behind the unit.
pub fn listedrule_to_rule(listed_rules: &[ListedRule], count: usize) -> (r: (
    RuleWithComment,
    Option<ColumnConfig>,
    usize,
))
    requires
        inflate(tokens_view(listed_rules@), count as nat) is Some,
    ensures
        inflate(tokens_view(listed_rules@), count as nat) == Some(parsed_view(r)),
{
    match parse_listedrule(listed_rules, count) {
        Some(p) => p,
        None => vstd::pervasive::unreached(),
    }
}

} // verus!

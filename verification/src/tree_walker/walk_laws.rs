//! What a single node of a syntax tree does to a walk, stated over the
//! walk's inputs: how tokens compare, when a conditional scope is entered,
//! how far each kind of node moves in the token stream, what becomes of the
//! position after an optional structure fails, what the arguments of a
//! matched node set, and how the walk ends when the tokens run out.

use vstd::prelude::*;

use crate::ast_parser::ast_parser::{
    self, lemma_first_index, lemma_key_index, param_lookup, NodeParameters, Tree,
};
use crate::lexer::tokenizer::TokenModel;
use crate::text::usize_of;
use crate::tree_walker::tree_walker::{
    advance, all_match, args_flow, compare_tokens, field_index, field_names, find_stop,
    lemma_walk_result, maybes_end_at, no_stop_message, prep_fields, scope_flow, step_flow, store,
    stops_pass, token_node, walk_ends, walk_node, walk_result, walk_scope, with_idx, CompareModel,
    CursorModel, ErrModel, FlowModel, NodeModel, OutcomeModel, ReturnActions, StateModel,
};

verus! {

/// A text token of the syntax names a structure, and only a text token does.
/// A string token is a pattern: `'any` accepts every token; `'string`,
/// `'number`, `'text` and `'char` accept exactly the tokens of that kind; any
/// other string accepts exactly the text token with the same characters.
/// Every other token of the syntax accepts exactly the token equal to it.
pub proof fn lemma_compare_tokens(expected: TokenModel, found: TokenModel)
    ensures
        expected matches TokenModel::Text(name) ==> compare_tokens(expected, found)
            == CompareModel::Ident(name),
        !(expected is Text) ==> !(compare_tokens(expected, found) is Ident),
        !(expected is Text) && !(expected is String) ==> (compare_tokens(expected, found)
            == CompareModel::Eq <==> found == expected),
        expected == TokenModel::String("'any"@) ==> compare_tokens(expected, found)
            == CompareModel::Eq,
        expected == TokenModel::String("'string"@) ==> (compare_tokens(expected, found)
            == CompareModel::Eq <==> found is String),
        expected == TokenModel::String("'number"@) ==> (compare_tokens(expected, found)
            == CompareModel::Eq <==> found is Number),
        expected == TokenModel::String("'text"@) ==> (compare_tokens(expected, found)
            == CompareModel::Eq <==> found is Text),
        expected == TokenModel::String("'char"@) ==> (compare_tokens(expected, found)
            == CompareModel::Eq <==> found is Char),
        expected matches TokenModel::String(p) ==> (p != "'any"@ && p != "'string"@ && p
            != "'number"@ && p != "'text"@ && p != "'char"@) ==> (compare_tokens(expected, found)
            == CompareModel::Eq <==> found == TokenModel::Text(p)),
{
    reveal_strlit("'any");
    reveal_strlit("'string");
    reveal_strlit("'number");
    reveal_strlit("'text");
    reveal_strlit("'char");
    assert("'any"@ != "'string"@ && "'any"@ != "'number"@ && "'any"@ != "'text"@ && "'any"@
        != "'char"@) by {
        assert("'any"@[1] != "'string"@[1]);
        assert("'any"@[1] != "'number"@[1]);
        assert("'any"@[1] != "'text"@[1]);
        assert("'any"@[1] != "'char"@[1]);
    }
    assert("'string"@ != "'number"@ && "'string"@ != "'text"@ && "'string"@ != "'char"@) by {
        assert("'string"@[1] != "'number"@[1]);
        assert("'string"@[1] != "'text"@[1]);
        assert("'string"@[1] != "'char"@[1]);
    }
    assert("'number"@ != "'text"@ && "'number"@ != "'char"@) by {
        assert("'number"@[1] != "'text"@[1]);
        assert("'number"@[1] != "'char"@[1]);
    }
    assert("'text"@ != "'char"@) by {
        assert("'text"@[1] != "'char"@[1]);
    }
}

/// A condition holds exactly when every pair it lists is a parameter of the
/// structure with that value; a parameter that is missing or has another
/// value makes it fail.
pub proof fn lemma_all_match(cond: NodeParameters, params: Seq<(String, String)>)
    ensures
        all_match(cond, params) <==> forall|i: int|
            0 <= i < cond.entries@.len() ==> param_lookup(params, (#[trigger] cond.entries@[i]).0@)
                == Some(cond.entries@[i].1@),
        all_match(cond, params) ==> forall|i: int|
            0 <= i < cond.entries@.len() ==> exists|j: int|
                0 <= j < params.len() && (#[trigger] params[j]).0@ == (
                #[trigger] cond.entries@[i]).0@ && params[j].1@ == cond.entries@[i].1@,
{
    assert forall|i: int| 0 <= i < cond.entries@.len() && all_match(cond, params) implies exists|
        j: int,
    |
        0 <= j < params.len() && (#[trigger] params[j]).0@ == (#[trigger] cond.entries@[i]).0@
            && params[j].1@ == cond.entries@[i].1@ by {
        lemma_key_index(params, cond.entries@[i].0@);
        let j = crate::ast_parser::ast_parser::key_index(params, cond.entries@[i].0@).unwrap();
        assert(params[j].0@ == cond.entries@[i].0@);
    }
}

/// The cursor on the node after the one at `c`, with state `st`.
pub open spec fn next_node(c: CursorModel, st: StateModel) -> CursorModel {
    CursorModel { at: c.at + 1, advance_node: true, advance_tok: true, state: st }
}

/// The cursor on the first node of a list, with state `st`.
pub open spec fn first_node(st: StateModel) -> CursorModel {
    CursorModel { at: 0, advance_node: true, advance_tok: true, state: st }
}

/// The state `st` at token `idx`.
pub open spec fn at_token(st: StateModel, idx: int) -> StateModel {
    StateModel { idx, ..st }
}

/// A walk that stops with error `e`, hard or not, in state `st`.
pub open spec fn stopped(e: ErrModel, hard: bool, st: StateModel) -> Option<
    (OutcomeModel, StateModel),
> {
    Some((Err((e, hard)), st))
}

/// A walk that leaves its list well, telling the enclosing list to go back
/// `n` nodes in the way `act` says, in state `st`.
pub open spec fn left_list(n: int, act: ReturnActions, st: StateModel) -> Option<
    (OutcomeModel, StateModel),
> {
    Some((Ok((n, act)), st))
}

/// A walk on a node with a token to look at takes one step and, when the
/// step leads on in the same list, goes on from where it leads with one unit
/// of fuel less.
proof fn lemma_walk_unfold(
    fuel: nat,
    tokens: Seq<TokenModel>,
    syntax: Tree,
    params: Seq<(String, String)>,
    nodes: Seq<ast_parser::NodeType>,
    c: CursorModel,
)
    requires
        fuel > 0,
        0 <= c.at < nodes.len(),
        0 <= c.state.idx < tokens.len(),
    ensures
        walk_scope(fuel, tokens, syntax, params, nodes, c) == match step_flow(
            fuel,
            tokens,
            syntax,
            params,
            nodes,
            (CursorModel { advance_node: true, advance_tok: true, ..c }),
        ) {
            None => None,
            Some(FlowModel::Done(o, st)) => Some((o, st)),
            Some(FlowModel::Next(c2)) => walk_scope((fuel - 1) as nat, tokens, syntax, params, nodes, c2),
        },
{
}

/// A `Command` node passes over exactly one token, whatever it is, and the
/// walk goes on at the next node.
pub proof fn lemma_command_passes_one_token(
    fuel: nat,
    tokens: Seq<TokenModel>,
    syntax: Tree,
    params: Seq<(String, String)>,
    nodes: Seq<ast_parser::NodeType>,
    c: CursorModel,
)
    requires
        fuel > 0,
        0 <= c.at < nodes.len(),
        c.at + 1 <= usize::MAX,
        0 <= c.state.idx < tokens.len(),
        c.state.idx + 1 <= usize::MAX,
        nodes[c.at] is Command,
    ensures
        walk_scope(fuel, tokens, syntax, params, nodes, c) == walk_scope(
            (fuel - 1) as nat,
            tokens,
            syntax,
            params,
            nodes,
            next_node(c, at_token(c.state, c.state.idx + 1)),
        ),
{
    lemma_walk_unfold(fuel, tokens, syntax, params, nodes, c);
}

/// An `Expect` node whose token is neither a pattern nor a structure name and
/// differs from the token at the cursor ends the walk there with a mismatch
/// error that names both tokens; the state is left as it was.
pub proof fn lemma_expect_mismatch(
    fuel: nat,
    tokens: Seq<TokenModel>,
    syntax: Tree,
    params: Seq<(String, String)>,
    nodes: Seq<ast_parser::NodeType>,
    c: CursorModel,
    node: ast_parser::Node,
)
    requires
        fuel > 0,
        0 <= c.at < nodes.len(),
        0 <= c.state.idx < tokens.len(),
        nodes[c.at] == ast_parser::NodeType::Expect(node),
        !(node.kind@ is String),
        !(node.kind@ is Text),
        tokens[c.state.idx] != node.kind@,
    ensures
        walk_scope(fuel, tokens, syntax, params, nodes, c) == stopped(
            ErrModel::Expected(node.kind@, tokens[c.state.idx]),
            c.state.harderr,
            c.state,
        ),
{
    lemma_walk_unfold(fuel, tokens, syntax, params, nodes, c);
    lemma_compare_tokens(node.kind@, tokens[c.state.idx]);
}

/// A walk depends on its cursor only through the node it is on and the
/// state: the flags are set afresh at each step.
proof fn lemma_walk_flags(
    fuel: nat,
    tokens: Seq<TokenModel>,
    syntax: Tree,
    params: Seq<(String, String)>,
    nodes: Seq<ast_parser::NodeType>,
    c: CursorModel,
)
    ensures
        walk_scope(fuel, tokens, syntax, params, nodes, c) == walk_scope(
            fuel,
            tokens,
            syntax,
            params,
            nodes,
            (CursorModel { advance_node: true, advance_tok: true, ..c }),
        ),
{
}

/// An `Expect` node without arguments whose token accepts the token at the
/// cursor passes over that one token, and the walk goes on at the next node
/// with the fields and the error mode as they were.
pub proof fn lemma_expect_match(
    fuel: nat,
    tokens: Seq<TokenModel>,
    syntax: Tree,
    params: Seq<(String, String)>,
    nodes: Seq<ast_parser::NodeType>,
    c: CursorModel,
    node: ast_parser::Node,
)
    requires
        fuel > 0,
        0 <= c.at < nodes.len(),
        c.at + 1 <= usize::MAX,
        0 <= c.state.idx < tokens.len(),
        c.state.idx + 1 <= usize::MAX,
        nodes[c.at] == ast_parser::NodeType::Expect(node),
        node.arguments.entries@.len() == 0,
        compare_tokens(node.kind@, tokens[c.state.idx]) == CompareModel::Eq,
    ensures
        walk_scope(fuel, tokens, syntax, params, nodes, c) == walk_scope(
            (fuel - 1) as nat,
            tokens,
            syntax,
            params,
            nodes,
            next_node(c, at_token(c.state, c.state.idx + 1)),
        ),
{
    lemma_walk_unfold(fuel, tokens, syntax, params, nodes, c);
    lemma_no_arguments(node.arguments);
}

/// A node without arguments has none of the arguments a walk looks at.
proof fn lemma_no_arguments(args: NodeParameters)
    requires
        args.entries@.len() == 0,
    ensures
        forall|k: Seq<char>| #[trigger] args.lookup(k) is None,
{
    assert forall|k: Seq<char>| #[trigger] args.lookup(k) is None by {
        lemma_key_index(args.entries@, k);
    }
}

/// A `Maybe` node whose token does not accept the token at the cursor is
/// skipped: the walk goes on at the next node with the same token and state.
pub proof fn lemma_maybe_mismatch(
    fuel: nat,
    tokens: Seq<TokenModel>,
    syntax: Tree,
    params: Seq<(String, String)>,
    nodes: Seq<ast_parser::NodeType>,
    c: CursorModel,
    node: ast_parser::Node,
)
    requires
        fuel > 0,
        0 <= c.at < nodes.len(),
        c.at + 1 <= usize::MAX,
        0 <= c.state.idx < tokens.len(),
        c.state.idx <= usize::MAX,
        nodes[c.at] == ast_parser::NodeType::Maybe(node),
        compare_tokens(node.kind@, tokens[c.state.idx]) == CompareModel::NotEq,
    ensures
        walk_scope(fuel, tokens, syntax, params, nodes, c) == walk_scope(
            (fuel - 1) as nat,
            tokens,
            syntax,
            params,
            nodes,
            next_node(c, c.state),
        ),
{
    lemma_walk_unfold(fuel, tokens, syntax, params, nodes, c);
    lemma_walk_flags(
        (fuel - 1) as nat,
        tokens,
        syntax,
        params,
        nodes,
        CursorModel { at: c.at + 1, advance_node: true, advance_tok: false, state: c.state },
    );
}

/// A conditional scope with a listed pair that is not a parameter of the
/// structure with that value is not entered: the walk goes on at the next
/// node with the same token and state.
pub proof fn lemma_condition_fails(
    fuel: nat,
    tokens: Seq<TokenModel>,
    syntax: Tree,
    params: Seq<(String, String)>,
    nodes: Seq<ast_parser::NodeType>,
    c: CursorModel,
    cond: ast_parser::ArgsCondition,
    i: int,
)
    requires
        fuel > 0,
        0 <= c.at < nodes.len(),
        0 <= c.state.idx < tokens.len(),
        nodes[c.at] == ast_parser::NodeType::ArgsCondition(cond),
        0 <= i < cond.params.entries@.len(),
        param_lookup(params, cond.params.entries@[i].0@) != Some(cond.params.entries@[i].1@),
    ensures
        walk_scope(fuel, tokens, syntax, params, nodes, c) == walk_scope(
            (fuel - 1) as nat,
            tokens,
            syntax,
            params,
            nodes,
            next_node(c, c.state),
        ),
{
    lemma_walk_unfold(fuel, tokens, syntax, params, nodes, c);
    lemma_all_match(cond.params, params);
}

/// A conditional scope whose listed pairs are all parameters of the structure
/// with those values is entered: its nodes are walked from the first one with
/// the same token and state. An error there ends the walk with that error
/// and state; running off the end of the scope goes on at the node after
/// the condition in the state the scope left; a chain out of the scope
/// leaves this list too; a step back of `n` from the scope goes back `n`
/// nodes from the node after the condition, or, where that leaves the list,
/// leaves it one token further on with the count still to go back.
pub proof fn lemma_condition_holds(
    fuel: nat,
    tokens: Seq<TokenModel>,
    syntax: Tree,
    params: Seq<(String, String)>,
    nodes: Seq<ast_parser::NodeType>,
    c: CursorModel,
    cond: ast_parser::ArgsCondition,
)
    requires
        fuel > 0,
        0 <= c.at < nodes.len(),
        0 <= c.state.idx < tokens.len(),
        nodes[c.at] == ast_parser::NodeType::ArgsCondition(cond),
        forall|i: int|
            0 <= i < cond.params.entries@.len() ==> param_lookup(
                params,
                (#[trigger] cond.params.entries@[i]).0@,
            ) == Some(cond.params.entries@[i].1@),
    ensures
        walk_scope((fuel - 1) as nat, tokens, syntax, params, cond.nodes@, first_node(c.state))
            matches Some((Err(e), st)) ==> walk_scope(fuel, tokens, syntax, params, nodes, c)
            == stopped(e.0, e.1, st),
        walk_scope((fuel - 1) as nat, tokens, syntax, params, cond.nodes@, first_node(c.state))
            matches Some((Ok((_, ReturnActions::Advance)), st)) ==> walk_scope(
            fuel,
            tokens,
            syntax,
            params,
            nodes,
            c,
        ) == walk_scope((fuel - 1) as nat, tokens, syntax, params, nodes, next_node(c, st)),
        walk_scope((fuel - 1) as nat, tokens, syntax, params, cond.nodes@, first_node(c.state))
            matches Some((Ok((n, ReturnActions::Chain)), st)) ==> walk_scope(
            fuel,
            tokens,
            syntax,
            params,
            nodes,
            c,
        ) == left_list(n, ReturnActions::Chain, st),
        walk_scope((fuel - 1) as nat, tokens, syntax, params, cond.nodes@, first_node(c.state))
            matches Some((Ok((n, act)), st)) ==> (act == ReturnActions::Freeze || act
            == ReturnActions::Nothing) ==> n <= c.at + 1 ==> walk_scope(
            fuel,
            tokens,
            syntax,
            params,
            nodes,
            c,
        ) == walk_scope(
            (fuel - 1) as nat,
            tokens,
            syntax,
            params,
            nodes,
            (CursorModel { at: c.at + 1 - n, advance_node: true, advance_tok: true, state: st }),
        ),
        walk_scope((fuel - 1) as nat, tokens, syntax, params, cond.nodes@, first_node(c.state))
            matches Some((Ok((n, act)), st)) ==> (act == ReturnActions::Freeze || act
            == ReturnActions::Nothing) ==> n > c.at + 1 ==> st.idx + 1 <= usize::MAX ==> walk_scope(
            fuel,
            tokens,
            syntax,
            params,
            nodes,
            c,
        ) == left_list(n - c.at - 2, act, at_token(st, st.idx + 1)),
{
    lemma_walk_unfold(fuel, tokens, syntax, params, nodes, c);
    lemma_all_match(cond.params, params);
    if let Some((Ok((n, act)), st)) = walk_scope(
        (fuel - 1) as nat,
        tokens,
        syntax,
        params,
        cond.nodes@,
        first_node(c.state),
    ) {
        if n <= c.at + 1 {
            lemma_walk_flags(
                (fuel - 1) as nat,
                tokens,
                syntax,
                params,
                nodes,
                CursorModel { at: c.at + 1 - n, advance_node: false, advance_tok: true, state: st },
            );
        }
    }
    let c1 = CursorModel { advance_node: true, advance_tok: true, ..c };
    let c2 = CursorModel { at: c.at + 1, ..c1 };
    assert(step_flow(fuel, tokens, syntax, params, nodes, c1) == scope_flow(
        fuel,
        tokens,
        syntax,
        params,
        cond.nodes@,
        c2,
    ));
    assert(first_node(c.state) == CursorModel {
        at: 0,
        advance_node: true,
        advance_tok: true,
        state: c2.state,
    });
}

/// When an optional (`Maybe`) node names a structure and parsing that
/// structure fails with an error that is neither hard nor one of the errors
/// that always end the walk, the node is skipped and the walk goes on at the
/// next node from the token where the structure started, with the state as
/// it was before.
pub proof fn lemma_optional_struct_fails(
    fuel: nat,
    tokens: Seq<TokenModel>,
    syntax: Tree,
    params: Seq<(String, String)>,
    nodes: Seq<ast_parser::NodeType>,
    c: CursorModel,
    node: ast_parser::Node,
    ident: Seq<char>,
    e: ErrModel,
    end: int,
)
    requires
        fuel > 0,
        0 <= c.at < nodes.len(),
        c.at + 1 <= usize::MAX,
        0 <= c.state.idx < tokens.len(),
        c.state.idx <= usize::MAX,
        nodes[c.at] == ast_parser::NodeType::Maybe(node),
        node.kind@ == TokenModel::Text(ident),
        walk_node((fuel - 1) as nat, tokens, syntax, node.arguments.entries@, c.state.idx, ident)
            == Some((Err::<NodeModel, _>((e, false)), end)),
        !(e is Pass),
        !(e is SubOverflow),
        !(e is FileEndPeaceful),
    ensures
        walk_scope(fuel, tokens, syntax, params, nodes, c) == walk_scope(
            (fuel - 1) as nat,
            tokens,
            syntax,
            params,
            nodes,
            next_node(c, c.state),
        ),
{
    lemma_walk_unfold(fuel, tokens, syntax, params, nodes, c);
    lemma_compare_tokens(node.kind@, tokens[c.state.idx]);
    lemma_walk_flags(
        (fuel - 1) as nat,
        tokens,
        syntax,
        params,
        nodes,
        CursorModel { at: c.at + 1, advance_node: true, advance_tok: false, state: c.state },
    );
}

/// When a required (`Expect`) node names a structure and parsing that
/// structure fails with an error that is not one of the errors handled on
/// their own, the walk ends with that error, hard as the enclosing walk's
/// errors are, at the token the structure reached.
pub proof fn lemma_required_struct_fails(
    fuel: nat,
    tokens: Seq<TokenModel>,
    syntax: Tree,
    params: Seq<(String, String)>,
    nodes: Seq<ast_parser::NodeType>,
    c: CursorModel,
    node: ast_parser::Node,
    ident: Seq<char>,
    e: ErrModel,
    hard: bool,
    end: int,
)
    requires
        fuel > 0,
        0 <= c.at < nodes.len(),
        0 <= c.state.idx < tokens.len(),
        nodes[c.at] == ast_parser::NodeType::Expect(node),
        node.kind@ == TokenModel::Text(ident),
        walk_node((fuel - 1) as nat, tokens, syntax, node.arguments.entries@, c.state.idx, ident)
            == Some((Err::<NodeModel, _>((e, hard)), end)),
        !(e is Pass),
        !(e is SubOverflow),
        !(e is FileEndPeaceful),
    ensures
        walk_scope(fuel, tokens, syntax, params, nodes, c) == stopped(
            e,
            c.state.harderr,
            at_token(c.state, end),
        ),
{
    lemma_walk_unfold(fuel, tokens, syntax, params, nodes, c);
    lemma_compare_tokens(node.kind@, tokens[c.state.idx]);
}

/// The state a step leads to.
pub open spec fn flow_state(f: FlowModel) -> StateModel {
    match f {
        FlowModel::Next(c) => c.state,
        FlowModel::Done(_, st) => st,
    }
}

/// Whether errors are hard after a node with arguments `args`, where they
/// were hard before as `before` says: a `harderr` argument makes them hard
/// exactly when its value is `true`.
pub open spec fn error_mode(args: NodeParameters, before: bool) -> bool {
    match args.lookup("harderr"@) {
        Some(v) => v == "true"@,
        None => before,
    }
}

/// How many tokens an `advance` argument skips: the number it holds, one
/// where it holds no number, none where there is no such argument.
pub open spec fn skipped(args: NodeParameters) -> int {
    match args.lookup("advance"@) {
        Some(v) => match usize_of(v) {
            Some(n) => n as int,
            None => 1,
        },
        None => 0,
    }
}

/// What the arguments of a matched node do to the walk, wherever it leads:
/// errors are hard from then on as the `harderr` argument says. Where the
/// walk goes on in the same list, the token position has moved on by what
/// `advance` skips, and a `peek` argument keeps the step from passing over
/// the matched token.
pub proof fn lemma_arguments(
    tokens: Seq<TokenModel>,
    args: NodeParameters,
    kind: TokenModel,
    found: Option<NodeModel>,
    c: CursorModel,
)
    ensures
        args_flow(tokens, args, kind, found, c) matches Some(f) ==> flow_state(f).harderr
            == error_mode(args, c.state.harderr),
        args_flow(tokens, args, kind, found, c) matches Some(FlowModel::Next(c2)) ==> {
            &&& c2.advance_tok == (c.advance_tok && args.lookup("peek"@) is None)
            &&& c2.state.idx == c.state.idx + skipped(args)
        },
{
}

/// The row of `Maybe` nodes from `i` on runs to the end of the list exactly
/// when every node from `i` on is a `Maybe` node.
proof fn lemma_all_maybes(nodes: Seq<ast_parser::NodeType>, i: int)
    requires
        0 <= i <= nodes.len(),
    ensures
        maybes_end_at(nodes, i) == nodes.len() <==> forall|j: int|
            i <= j < nodes.len() ==> #[trigger] nodes[j] is Maybe,
    decreases nodes.len() - i,
{
    if i < nodes.len() && nodes[i] is Maybe {
        lemma_all_maybes(nodes, i + 1);
        assert forall|j: int| i <= j < nodes.len() && (forall|k: int|
            i + 1 <= k < nodes.len() ==> #[trigger] nodes[k] is Maybe) implies #[trigger] nodes[j] is Maybe by {
            if j > i {
                assert(nodes[j] is Maybe);
            }
        }
    }
}

/// When the tokens have run out, a walk on a node of the list ends at once,
/// in the state it had: well where every node left is optional; with an
/// error that is always hard and ends the walk without complaint where the
/// node is the last one; and otherwise with an error, hard as the walk's
/// errors are, that says the tokens ended too soon. A walk past the last
/// node ends well.
pub proof fn lemma_walk_out_of_tokens(
    fuel: nat,
    tokens: Seq<TokenModel>,
    syntax: Tree,
    params: Seq<(String, String)>,
    nodes: Seq<ast_parser::NodeType>,
    c: CursorModel,
)
    requires
        fuel > 0,
        0 <= c.at,
    ensures
        c.at >= nodes.len() ==> walk_scope(fuel, tokens, syntax, params, nodes, c) == left_list(
            0,
            ReturnActions::Advance,
            c.state,
        ),
        c.at < nodes.len() && c.state.idx >= tokens.len() ==> {
            &&& (forall|j: int| c.at <= j < nodes.len() ==> #[trigger] nodes[j] is Maybe)
                ==> walk_scope(fuel, tokens, syntax, params, nodes, c) == left_list(
                0,
                ReturnActions::Advance,
                c.state,
            )
            &&& !(forall|j: int| c.at <= j < nodes.len() ==> #[trigger] nodes[j] is Maybe) && c.at
                == nodes.len() - 1 ==> walk_scope(fuel, tokens, syntax, params, nodes, c) == stopped(
                ErrModel::FileEndPeaceful,
                true,
                c.state,
            )
            &&& !(forall|j: int| c.at <= j < nodes.len() ==> #[trigger] nodes[j] is Maybe) && c.at
                < nodes.len() - 1 ==> walk_scope(fuel, tokens, syntax, params, nodes, c) == stopped(
                ErrModel::FileEnd,
                c.state.harderr,
                c.state,
            )
        },
{
    if c.at < nodes.len() {
        lemma_all_maybes(nodes, c.at);
    }
}

/// A `Maybe` node without arguments whose token accepts the token at the
/// cursor passes over that token and enters its scope: the scope's nodes are
/// walked from the first one at the next token. An error there ends the
/// walk with that error and state; running off the end of the scope goes on
/// at the node after the `Maybe` node in the state the scope left.
pub proof fn lemma_maybe_match(
    fuel: nat,
    tokens: Seq<TokenModel>,
    syntax: Tree,
    params: Seq<(String, String)>,
    nodes: Seq<ast_parser::NodeType>,
    c: CursorModel,
    node: ast_parser::Node,
)
    requires
        fuel > 0,
        0 <= c.at < nodes.len(),
        c.at + 1 <= usize::MAX,
        0 <= c.state.idx < tokens.len(),
        c.state.idx + 1 <= usize::MAX,
        nodes[c.at] == ast_parser::NodeType::Maybe(node),
        node.arguments.entries@.len() == 0,
        compare_tokens(node.kind@, tokens[c.state.idx]) == CompareModel::Eq,
    ensures
        walk_scope(
            (fuel - 1) as nat,
            tokens,
            syntax,
            params,
            node.nodes@,
            first_node(at_token(c.state, c.state.idx + 1)),
        ) matches Some((Err(e), st)) ==> walk_scope(fuel, tokens, syntax, params, nodes, c)
            == stopped(e.0, e.1, st),
        walk_scope(
            (fuel - 1) as nat,
            tokens,
            syntax,
            params,
            node.nodes@,
            first_node(at_token(c.state, c.state.idx + 1)),
        ) matches Some((Ok((_, ReturnActions::Advance)), st)) ==> walk_scope(
            fuel,
            tokens,
            syntax,
            params,
            nodes,
            c,
        ) == walk_scope((fuel - 1) as nat, tokens, syntax, params, nodes, next_node(c, st)),
{
    lemma_walk_unfold(fuel, tokens, syntax, params, nodes, c);
    lemma_no_arguments(node.arguments);
    let c1 = CursorModel { advance_node: true, advance_tok: true, ..c };
    let c3 = next_node(c, at_token(c.state, c.state.idx + 1));
    assert(args_flow(tokens, node.arguments, node.kind@, None, c1) == Some(FlowModel::Next(c1)));
    assert(advance(c1) == Some(c3));
    assert(step_flow(fuel, tokens, syntax, params, nodes, c1) == scope_flow(
        fuel,
        tokens,
        syntax,
        params,
        node.nodes@,
        c3,
    ));
    assert(first_node(at_token(c.state, c.state.idx + 1)) == first_node(c3.state));
    if let Some((Ok((_, ReturnActions::Advance)), st)) = walk_scope(
        (fuel - 1) as nat,
        tokens,
        syntax,
        params,
        node.nodes@,
        first_node(c3.state),
    ) {
        lemma_walk_flags(
            (fuel - 1) as nat,
            tokens,
            syntax,
            params,
            nodes,
            CursorModel { advance_tok: false, state: st, ..c3 },
        );
    }
}

/// The first node from `i` on that stops a `pass` named `arg` is the one
/// found; where no node from `i` on stops it, none is.
proof fn lemma_find_stop(nodes: Seq<ast_parser::NodeType>, i: int, arg: Seq<char>)
    requires
        0 <= i,
    ensures
        find_stop(nodes, i, arg) matches Some(j) ==> {
            &&& i <= j < nodes.len()
            &&& stops_pass(nodes[j], arg)
            &&& forall|k: int| i <= k < j ==> !stops_pass(#[trigger] nodes[k], arg)
        },
        find_stop(nodes, i, arg) is None ==> forall|k: int|
            i <= k < nodes.len() ==> !stops_pass(#[trigger] nodes[k], arg),
    decreases nodes.len() - i,
{
    if i < nodes.len() && !stops_pass(nodes[i], arg) {
        lemma_find_stop(nodes, i + 1, arg);
    }
}

/// When a node names a structure and parsing it ends with a `pass` named
/// `arg`, the walk jumps forward, at the token the structure reached, to the
/// first later node of the list marked to stop that `pass`; where no later
/// node is, the walk ends there with an error that says so.
pub proof fn lemma_pass_jumps(
    fuel: nat,
    tokens: Seq<TokenModel>,
    syntax: Tree,
    params: Seq<(String, String)>,
    nodes: Seq<ast_parser::NodeType>,
    c: CursorModel,
    node: ast_parser::Node,
    ident: Seq<char>,
    arg: Seq<char>,
    hard: bool,
    end: int,
)
    requires
        fuel > 0,
        0 <= c.at < nodes.len(),
        0 <= c.state.idx < tokens.len(),
        nodes[c.at] == ast_parser::NodeType::Expect(node) || nodes[c.at]
            == ast_parser::NodeType::Maybe(node),
        node.kind@ == TokenModel::Text(ident),
        walk_node((fuel - 1) as nat, tokens, syntax, node.arguments.entries@, c.state.idx, ident)
            == Some((Err::<NodeModel, _>((ErrModel::Pass(arg), hard)), end)),
    ensures
        forall|j: int|
            c.at < j < nodes.len() && stops_pass(#[trigger] nodes[j], arg) && (forall|k: int|
                c.at < k < j ==> !stops_pass(#[trigger] nodes[k], arg)) ==> walk_scope(
                fuel,
                tokens,
                syntax,
                params,
                nodes,
                c,
            ) == walk_scope(
                (fuel - 1) as nat,
                tokens,
                syntax,
                params,
                nodes,
                (CursorModel {
                    at: j,
                    advance_node: true,
                    advance_tok: true,
                    state: at_token(c.state, end),
                }),
            ),
        (forall|k: int| c.at < k < nodes.len() ==> !stops_pass(#[trigger] nodes[k], arg))
            ==> walk_scope(fuel, tokens, syntax, params, nodes, c) == stopped(
            ErrModel::Msg(no_stop_message()),
            c.state.harderr,
            at_token(c.state, end),
        ),
{
    lemma_walk_unfold(fuel, tokens, syntax, params, nodes, c);
    lemma_compare_tokens(node.kind@, tokens[c.state.idx]);
    lemma_find_stop(nodes, c.at + 1, arg);
    assert forall|j: int|
        c.at < j < nodes.len() && stops_pass(#[trigger] nodes[j], arg) && (forall|k: int|
            c.at < k < j ==> !stops_pass(#[trigger] nodes[k], arg)) implies find_stop(
        nodes,
        c.at + 1,
        arg,
    ) == Some(j) by {
        if let Some(j2) = find_stop(nodes, c.at + 1, arg) {
            if j2 < j {
                assert(!stops_pass(nodes[j2], arg));
            } else if j < j2 {
                assert(!stops_pass(nodes[j], arg));
            }
        } else {
            assert(!stops_pass(nodes[j], arg));
        }
    }
}

/// What a `set` argument stores: the node that was built, or else a node
/// for the token at `idx`.
pub open spec fn set_value(
    tokens: Seq<TokenModel>,
    kind: TokenModel,
    found: Option<NodeModel>,
    idx: int,
) -> NodeModel {
    match found {
        Some(nd) => nd,
        None => token_node(tokens[idx], kind),
    }
}

/// The fields a matched node leaves: without a `set` argument they are as
/// they were; with one, the first field it names gets the value stored
/// (appended to a list, replacing a single value), taken at the token the
/// other leading arguments moved to, and every other field stays as it was.
/// A `set` that names no field, or that would take a token past the end,
/// stops the walk.
pub proof fn lemma_set_argument(
    tokens: Seq<TokenModel>,
    args: NodeParameters,
    kind: TokenModel,
    found: Option<NodeModel>,
    c: CursorModel,
)
    ensures
        args_flow(tokens, args, kind, found, c) matches Some(f) ==> args.lookup("set"@) is None
            ==> flow_state(f).data == c.state.data,
        args_flow(tokens, args, kind, found, c) matches Some(f) ==> args.lookup("set"@) matches Some(
            key,
        ) ==> {
            &&& field_index(c.state.data, key) matches Some(i)
            &&& 0 <= i < c.state.data.len()
            &&& c.state.data[i].0 == key
            &&& flow_state(f).data == c.state.data.update(
                i,
                (
                    key,
                    store(
                        c.state.data[i].1,
                        set_value(tokens, kind, found, c.state.idx + skipped(args)),
                    ),
                ),
            )
        },
        args.lookup("set"@) matches Some(key) && field_index(c.state.data, key) is None
            ==> args_flow(tokens, args, kind, found, c) is None,
        args.lookup("set"@) is Some && found is None && c.state.idx + skipped(args) >= tokens.len()
            ==> args_flow(tokens, args, kind, found, c) is None,
{
    if let Some(key) = args.lookup("set"@) {
        lemma_first_index(field_names(c.state.data), key);
    }
}

/// Whether the `back` argument of `args`, if any, stays inside a list whose
/// cursor is on node `at`.
pub open spec fn back_stays(args: NodeParameters, at: int) -> bool {
    match args.lookup("back"@) {
        None => true,
        Some(v) => match usize_of(v) {
            Some(n) => n <= at,
            None => false,
        },
    }
}

/// What the trailing arguments of a matched node do. `back` with a number
/// `n` steps back `n` nodes and stays on the node reached; where that leaves
/// the list, the list is left, one token further on, with the count still
/// to go back; `back` without a number stops the walk. Then `end` leaves the
/// list as a chain (one token further on when its value is `true`), `pass`
/// leaves it to look for the node that stops it, and `err` leaves it with its
/// message as the error, hard as the `harderr` argument leaves errors. With
/// none of these the walk goes on in the same list.
pub proof fn lemma_tail_arguments(
    tokens: Seq<TokenModel>,
    args: NodeParameters,
    kind: TokenModel,
    found: Option<NodeModel>,
    c: CursorModel,
)
    ensures
        args.lookup("back"@) matches Some(v) && usize_of(v) is None ==> args_flow(
            tokens,
            args,
            kind,
            found,
            c,
        ) is None,
        args_flow(tokens, args, kind, found, c) matches Some(FlowModel::Next(c2)) ==> {
            &&& args.lookup("end"@) is None
            &&& args.lookup("pass"@) is None
            &&& args.lookup("err"@) is None
            &&& args.lookup("back"@) is None ==> c2.at == c.at && c2.advance_node
                == c.advance_node
            &&& args.lookup("back"@) matches Some(v) ==> (usize_of(v) matches Some(n) && n
                <= c.at && c2.at == c.at - n && !c2.advance_node)
        },
        args_flow(tokens, args, kind, found, c) matches Some(f) ==> (args.lookup("back"@)
            matches Some(v) ==> (usize_of(v) matches Some(n) ==> (n > c.at ==> (f matches FlowModel::Done(
            Ok((k, ReturnActions::Freeze)),
            st,
        ) && k == n - c.at - 1 && st.idx == c.state.idx + skipped(args) + 1)))),
        args_flow(tokens, args, kind, found, c) matches Some(f) ==> (back_stays(args, c.at) ==> {
            &&& args.lookup("end"@) matches Some(v) ==> (f matches FlowModel::Done(
                Ok((k, ReturnActions::Chain)),
                st,
            ) && k == 0 && st.idx == c.state.idx + skipped(args) + if v == "true"@ {
                1int
            } else {
                0int
            })
            &&& args.lookup("end"@) is None ==> (args.lookup("pass"@) matches Some(v)
                ==> (f matches FlowModel::Done(Err((ErrModel::Pass(w), h)), _) && w == v && h
                == error_mode(args, c.state.harderr)))
            &&& args.lookup("end"@) is None ==> args.lookup("pass"@) is None ==> (args.lookup(
                "err"@,
            ) matches Some(v) ==> (f matches FlowModel::Done(Err((ErrModel::Msg(w), h)), _) && w
                == v && h == error_mode(args, c.state.harderr)))
            &&& args.lookup("end"@) is None ==> args.lookup("pass"@) is None ==> args.lookup(
                "err"@,
            ) is None ==> f is Next
        }),
{
}

/// When a node without arguments or scope names a structure and parsing that
/// structure succeeds, the walk goes on at the next node from the token the
/// structure reached, with the fields and the error mode as they were.
pub proof fn lemma_struct_parsed(
    fuel: nat,
    tokens: Seq<TokenModel>,
    syntax: Tree,
    params: Seq<(String, String)>,
    nodes: Seq<ast_parser::NodeType>,
    c: CursorModel,
    node: ast_parser::Node,
    ident: Seq<char>,
    built: NodeModel,
    end: int,
)
    requires
        fuel > 1,
        0 <= c.at < nodes.len(),
        c.at + 1 <= usize::MAX,
        0 <= c.state.idx < tokens.len(),
        nodes[c.at] == ast_parser::NodeType::Expect(node) || nodes[c.at]
            == ast_parser::NodeType::Maybe(node),
        node.kind@ == TokenModel::Text(ident),
        node.arguments.entries@.len() == 0,
        node.nodes@.len() == 0,
        walk_node((fuel - 1) as nat, tokens, syntax, node.arguments.entries@, c.state.idx, ident)
            == Some((Ok::<NodeModel, (ErrModel, bool)>(built), end)),
        end <= usize::MAX,
    ensures
        walk_scope(fuel, tokens, syntax, params, nodes, c) == walk_scope(
            (fuel - 1) as nat,
            tokens,
            syntax,
            params,
            nodes,
            next_node(c, at_token(c.state, end)),
        ),
{
    lemma_walk_unfold(fuel, tokens, syntax, params, nodes, c);
    lemma_compare_tokens(node.kind@, tokens[c.state.idx]);
    lemma_no_arguments(node.arguments);
    let c1 = CursorModel { advance_node: true, advance_tok: true, ..c };
    let c2 = CursorModel { advance_tok: false, state: at_token(c.state, end), ..c1 };
    assert(walk_scope((fuel - 1) as nat, tokens, syntax, params, node.nodes@, first_node(c2.state))
        == left_list(0, ReturnActions::Advance, c2.state));
    assert(scope_flow(fuel, tokens, syntax, params, node.nodes@, with_idx(c1, end)) == Some(
        FlowModel::Next(c2),
    ));
    assert(args_flow(tokens, node.arguments, node.kind@, Some(built), c2) == Some(
        FlowModel::Next(c2),
    ));
    lemma_walk_flags(
        (fuel - 1) as nat,
        tokens,
        syntax,
        params,
        nodes,
        CursorModel { at: c.at + 1, ..c2 },
    );
}

/// A structure whose first node expects a token that is neither a pattern
/// nor a structure name, parsed at a token that differs from it, fails at
/// once: the walk ends with a mismatch error that names both tokens and is
/// not hard, at the token where it started.
pub proof fn lemma_structure_mismatch(
    tokens: Seq<TokenModel>,
    syntax: Tree,
    params: Seq<(String, String)>,
    idx: int,
    id: Seq<char>,
    node: ast_parser::Node,
)
    requires
        syntax.lookup(id) is Some,
        syntax.lookup(id).unwrap().nodes@.len() > 0,
        syntax.lookup(id).unwrap().nodes@[0] == ast_parser::NodeType::Expect(node),
        !(node.kind@ is String),
        !(node.kind@ is Text),
        0 <= idx < tokens.len(),
        tokens[idx] != node.kind@,
    ensures
        walk_ends(tokens, syntax, params, idx, id),
        walk_result(tokens, syntax, params, idx, id) == (
            Err::<NodeModel, (ErrModel, bool)>((ErrModel::Expected(node.kind@, tokens[idx]), false)),
            idx,
        ),
{
    let head = syntax.lookup(id).unwrap();
    let start = first_node(
        StateModel { idx, data: prep_fields(head.parameters@), harderr: false },
    );
    lemma_expect_mismatch(1, tokens, syntax, params, head.nodes@, start, node);
    lemma_walk_result(1, tokens, syntax, params, idx, id);
}

} // verus!

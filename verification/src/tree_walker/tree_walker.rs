//! Walks a token stream along a syntax tree and builds the nodes it finds.

use vstd::prelude::*;

use crate::ast_parser::ast_parser::{
    self, find_key, first_index, key_index, lemma_first_index, lemma_key_index, names,
    param_lookup, HeadParam, NodeParameters, Tree,
};
use crate::lexer::tokenizer::{TokenModel, Tokens};
use crate::text::{parse_usize, str_equals, usize_of};

verus! {

/// structures defined by user
#[derive(Debug)]
pub struct Node {
    pub name: Tokens,
    pub data: Option<Tokens>,
    pub nodes: Vec<(String, NodeType)>,
}

/// A field of a node: a list of nodes or a single node.
#[derive(Debug)]
pub enum NodeType {
    Array(Vec<Node>),
    Value(Node),
}

/// A node as a mathematical value: its strings as character sequences and its
/// fields as a sequence of name-field pairs.
pub struct NodeModel {
    pub name: TokenModel,
    pub data: Option<TokenModel>,
    pub nodes: Seq<(Seq<char>, FieldModel)>,
}

/// A field as a mathematical value.
pub enum FieldModel {
    Array(Seq<NodeModel>),
    Value(NodeModel),
}

impl View for Node {
    type V = NodeModel;

    open spec fn view(&self) -> NodeModel {
        node_view(*self)
    }
}

impl View for NodeType {
    type V = FieldModel;

    open spec fn view(&self) -> FieldModel {
        field_view(*self)
    }
}

/// The value that a node stands for.
pub open spec fn node_view(n: Node) -> NodeModel
    decreases n,
{
    NodeModel {
        name: n.name@,
        data: match n.data {
            Some(t) => Some(t@),
            None => None,
        },
        nodes: fields_view(n.nodes@),
    }
}

/// The values that a node's fields stand for, in order.
pub open spec fn fields_view(v: Seq<(String, NodeType)>) -> Seq<(Seq<char>, FieldModel)>
    decreases v,
{
    if v.len() == 0 {
        Seq::empty()
    } else {
        fields_view(v.drop_last()).push((v.last().0@, field_view(v.last().1)))
    }
}

/// The value that a field stands for.
pub open spec fn field_view(f: NodeType) -> FieldModel
    decreases f,
{
    match f {
        NodeType::Array(v) => FieldModel::Array(nodes_view(v@)),
        NodeType::Value(n) => FieldModel::Value(node_view(n)),
    }
}

/// The values that a list of nodes stands for, in order.
pub open spec fn nodes_view(v: Seq<Node>) -> Seq<NodeModel>
    decreases v,
{
    if v.len() == 0 {
        Seq::empty()
    } else {
        nodes_view(v.drop_last()).push(node_view(v.last()))
    }
}

/// How a list of nodes that was left tells the enclosing list to go on.
#[derive(Debug, PartialEq, Eq, Structural, Clone, Copy)]
pub enum ReturnActions {
    /// Step back by the count handed along and stay on the node reached.
    Freeze,
    /// Step back by the count handed along.
    Nothing,
    /// Leave the enclosing list as well.
    Chain,
    /// The list ran to its end; keep the current token.
    Advance,
}

/// Why a walk stopped.
#[derive(Debug)]
pub enum WalkError {
    /// The token the syntax expected, and the token found.
    Expected(Tokens, Tokens),
    /// A message: from an `err` argument, or a `pass` that found no stop.
    Msg(String),
    /// The tokens ran out before the last node of a list.
    FileEnd,
    /// The tokens ran out at the last node of a list.
    FileEndPeaceful,
    /// A `pass` argument: skip to the next node marked to stop it.
    Pass(String),
    SubOverflow(usize),
}

/// A walk error as a mathematical value.
pub enum ErrModel {
    Expected(TokenModel, TokenModel),
    Msg(Seq<char>),
    FileEnd,
    FileEndPeaceful,
    Pass(Seq<char>),
    SubOverflow(usize),
}

impl View for WalkError {
    type V = ErrModel;

    open spec fn view(&self) -> ErrModel {
        match self {
            WalkError::Expected(a, b) => ErrModel::Expected(a@, b@),
            WalkError::Msg(m) => ErrModel::Msg(m@),
            WalkError::FileEnd => ErrModel::FileEnd,
            WalkError::FileEndPeaceful => ErrModel::FileEndPeaceful,
            WalkError::Pass(m) => ErrModel::Pass(m@),
            WalkError::SubOverflow(n) => ErrModel::SubOverflow(*n),
        }
    }
}

/// What a scope hands back: how far the enclosing scope should step back and
/// how, or an error and whether it is hard.
pub type Outcome = Result<(usize, ReturnActions), (WalkError, bool)>;

/// An outcome as a mathematical value.
pub type OutcomeModel = Result<(int, ReturnActions), (ErrModel, bool)>;

/// The value that an outcome stands for.
pub open spec fn outcome_view(o: Outcome) -> OutcomeModel {
    match o {
        Ok((n, a)) => Ok((n as int, a)),
        Err((e, b)) => Err((e@, b)),
    }
}

/// The state that a walk carries along: the position in the token stream, the
/// fields of the node being built and whether errors are hard.
pub struct StateModel {
    pub idx: int,
    pub data: Seq<(Seq<char>, FieldModel)>,
    pub harderr: bool,
}

/// A position in a list of syntax nodes, with the two flags that say whether
/// the next step moves to the next node and to the next token.
pub struct CursorModel {
    pub at: int,
    pub advance_node: bool,
    pub advance_tok: bool,
    pub state: StateModel,
}

/// Where a step of a walk leads.
pub enum FlowModel {
    /// Go on walking the list from this cursor.
    Next(CursorModel),
    /// Leave the list with this outcome and state.
    Done(OutcomeModel, StateModel),
}

/// The values that a token stream stands for, in order.
pub open spec fn token_views(tokens: Seq<Tokens>) -> Seq<TokenModel> {
    tokens.map_values(|t: Tokens| t@)
}

/// Index of the first field named `key`.
pub open spec fn field_index(fields: Seq<(Seq<char>, FieldModel)>, key: Seq<char>) -> Option<int> {
    first_index(field_names(fields), key)
}

/// The fields of a new node of a structure with these parameters: an empty
/// list for each list parameter and an empty placeholder node for each single
/// value, stored under the parameter's name; a later parameter with a name
/// already used takes its place.
pub open spec fn prep_fields(params: Seq<HeadParam>) -> Seq<(Seq<char>, FieldModel)>
    decreases params.len(),
{
    if params.len() == 0 {
        Seq::empty()
    } else {
        let fields = prep_fields(params.drop_last());
        let (name, value) = match params.last() {
            HeadParam::Array(n) => (n@, FieldModel::Array(Seq::empty())),
            HeadParam::Value(n) => (n@, FieldModel::Value(placeholder())),
        };
        match field_index(fields, name) {
            Some(i) => fields.update(i, (name, value)),
            None => fields.push((name, value)),
        }
    }
}

/// The node that stands in a single-value field before anything is stored.
pub open spec fn placeholder() -> NodeModel {
    NodeModel { name: TokenModel::Text("'none"@), data: None, nodes: Seq::empty() }
}

/// The node stored for a token that matched the expected token `expected`: a
/// string pattern is kept beside the token.
pub open spec fn token_node(found: TokenModel, expected: TokenModel) -> NodeModel {
    NodeModel {
        name: found,
        data: if expected is String {
            Some(expected)
        } else {
            None
        },
        nodes: Seq::empty(),
    }
}

/// A field after storing `v`: a list gets `v` appended, a single value is
/// replaced by `v`.
pub open spec fn store(f: FieldModel, v: NodeModel) -> FieldModel {
    match f {
        FieldModel::Array(a) => FieldModel::Array(a.push(v)),
        FieldModel::Value(_) => FieldModel::Value(v),
    }
}

/// How a syntax node's token compares with a token of the stream: it
/// matches, it does not, or it names a structure to parse.
pub enum CompareModel {
    Eq,
    NotEq,
    Ident(Seq<char>),
}

/// How a syntax node's token compares with a token of the stream. A string
/// token is a pattern: `'string`, `'number`, `'text` and `'char` accept any
/// token of that kind, `'any` accepts every token, and any other string
/// accepts text equal to it. A text token names a structure to parse. Any
/// other token must be equal.
pub open spec fn compare_tokens(tree_element: TokenModel, source: TokenModel) -> CompareModel {
    match tree_element {
        TokenModel::String(txt) => if txt == "'string"@ {
            if source is String {
                CompareModel::Eq
            } else {
                CompareModel::NotEq
            }
        } else if txt == "'number"@ {
            if source is Number {
                CompareModel::Eq
            } else {
                CompareModel::NotEq
            }
        } else if txt == "'text"@ {
            if source is Text {
                CompareModel::Eq
            } else {
                CompareModel::NotEq
            }
        } else if txt == "'char"@ {
            if source is Char {
                CompareModel::Eq
            } else {
                CompareModel::NotEq
            }
        } else if txt == "'any"@ {
            CompareModel::Eq
        } else if source == TokenModel::Text(txt) {
            CompareModel::Eq
        } else {
            CompareModel::NotEq
        },
        TokenModel::Text(ident) => CompareModel::Ident(ident),
        _ => if tree_element == source {
            CompareModel::Eq
        } else {
            CompareModel::NotEq
        },
    }
}

/// The first index from `i` on that does not hold a `Maybe` node.
pub open spec fn maybes_end_at(nodes: Seq<ast_parser::NodeType>, i: int) -> int
    decreases nodes.len() - i,
{
    if 0 <= i < nodes.len() && nodes[i] is Maybe {
        maybes_end_at(nodes, i + 1)
    } else {
        i
    }
}

/// The end of the row of `Maybe` nodes that starts at `i` lies between `i`
/// and the end of the list and holds no `Maybe` node, so looking for the end
/// again from there gives the same place.
pub proof fn lemma_maybes_end(nodes: Seq<ast_parser::NodeType>, i: int)
    requires
        0 <= i <= nodes.len(),
    ensures
        i <= maybes_end_at(nodes, i) <= nodes.len(),
        maybes_end_at(nodes, i) < nodes.len() ==> !(nodes[maybes_end_at(nodes, i)] is Maybe),
        maybes_end_at(nodes, maybes_end_at(nodes, i)) == maybes_end_at(nodes, i),
    decreases nodes.len() - i,
{
    if i < nodes.len() && nodes[i] is Maybe {
        lemma_maybes_end(nodes, i + 1);
    }
}

/// Whether a node is marked as the place where a `pass` named `arg` lands.
pub open spec fn stops_pass(n: ast_parser::NodeType, arg: Seq<char>) -> bool {
    match n {
        ast_parser::NodeType::Expect(x) => x.arguments.lookup("stop"@) == Some(arg),
        ast_parser::NodeType::Maybe(x) => x.arguments.lookup("stop"@) == Some(arg),
        _ => false,
    }
}

/// The first index from `j` on whose node stops a `pass` named `arg`.
pub open spec fn find_stop(nodes: Seq<ast_parser::NodeType>, j: int, arg: Seq<char>) -> Option<int>
    decreases nodes.len() - j,
{
    if j < 0 || j >= nodes.len() {
        None
    } else if stops_pass(nodes[j], arg) {
        Some(j)
    } else {
        find_stop(nodes, j + 1, arg)
    }
}

/// Every pair of `cond` is a parameter of `params` with that value.
pub open spec fn all_match(cond: NodeParameters, params: Seq<(String, String)>) -> bool {
    forall|i: int|
        0 <= i < cond.entries@.len() ==> param_lookup(params, (#[trigger] cond.entries@[i]).0@) == Some(
            cond.entries@[i].1@,
        )
}

/// The cursor moved to token `idx`.
pub open spec fn with_idx(c: CursorModel, idx: int) -> CursorModel {
    CursorModel { state: StateModel { idx, ..c.state }, ..c }
}

/// Moves to the next node and the next token as the flags say; `None` where
/// a position would overflow.
pub open spec fn advance(c: CursorModel) -> Option<CursorModel> {
    let idx = if c.advance_tok {
        c.state.idx + 1
    } else {
        c.state.idx
    };
    let at = if c.advance_node {
        c.at + 1
    } else {
        c.at
    };
    if idx > usize::MAX || at > usize::MAX {
        None
    } else {
        Some(CursorModel { at, state: StateModel { idx, ..c.state }, ..c })
    }
}

/// Steps back `num` nodes; when that leaves the list, the list is left,
/// one token further on, telling the enclosing list how far it has still to
/// go back.
pub open spec fn back_flow(num: int, freeze: ReturnActions, c: CursorModel) -> Option<FlowModel> {
    if num <= c.at {
        Some(
            FlowModel::Next(
                CursorModel {
                    at: c.at - num,
                    advance_node: if freeze == ReturnActions::Freeze {
                        false
                    } else {
                        c.advance_node
                    },
                    ..c
                },
            ),
        )
    } else if c.state.idx + 1 > usize::MAX {
        None
    } else {
        Some(
            FlowModel::Done(
                Ok((num - c.at - 1, freeze)),
                StateModel { idx: c.state.idx + 1, ..c.state },
            ),
        )
    }
}

/// The fields after storing what was found in the field named `key`: the
/// given node, or (for `None`) a node for the token at `idx`. `None` where
/// there is no such token or field.
pub open spec fn stored(
    tokens: Seq<TokenModel>,
    key: Seq<char>,
    kind: TokenModel,
    found: Option<NodeModel>,
    idx: int,
    data: Seq<(Seq<char>, FieldModel)>,
) -> Option<Seq<(Seq<char>, FieldModel)>> {
    let value = match found {
        Some(nd) => Some(nd),
        None => if 0 <= idx < tokens.len() {
            Some(token_node(tokens[idx], kind))
        } else {
            None
        },
    };
    match (value, field_index(data, key)) {
        (Some(v), Some(i)) => Some(data.update(i, (data[i].0, store(data[i].1, v)))),
        _ => None,
    }
}

/// The arguments that come first: `peek` keeps the token, `advance` skips
/// tokens (one when its value is not a number), `harderr` sets whether
/// errors are hard. `None` where the token position would overflow. A
/// `print` argument, a debugging aid, has no effect on the walk and is not
/// printed.
pub open spec fn args_prelude(args: NodeParameters, c: CursorModel) -> Option<CursorModel> {
    let c1 = if args.lookup("peek"@) is Some {
        CursorModel { advance_tok: false, ..c }
    } else {
        c
    };
    let skip: int = match args.lookup("advance"@) {
        Some(v) => match usize_of(v) {
            Some(n) => n as int,
            None => 1,
        },
        None => 0,
    };
    if c1.state.idx + skip > usize::MAX {
        None
    } else {
        let c2 = with_idx(c1, c1.state.idx + skip);
        match args.lookup("harderr"@) {
            Some(v) => Some(
                CursorModel { state: StateModel { harderr: v == "true"@, ..c2.state }, ..c2 },
            ),
            None => Some(c2),
        }
    }
}

/// The `set` argument stores what was found in the field it names.
pub open spec fn set_arg(
    tokens: Seq<TokenModel>,
    args: NodeParameters,
    kind: TokenModel,
    found: Option<NodeModel>,
    c: CursorModel,
) -> Option<CursorModel> {
    match args.lookup("set"@) {
        None => Some(c),
        Some(key) => match stored(tokens, key, kind, found, c.state.idx, c.state.data) {
            Some(data) => Some(CursorModel { state: StateModel { data, ..c.state }, ..c }),
            None => None,
        },
    }
}

/// The arguments that come last: `back` steps back, then `end` leaves the
/// list as a chain (one token further on if its value is `true`), `pass`
/// and `err` leave it with an error. `None` where `back` is not a number or
/// the token position would overflow.
pub open spec fn args_tail(args: NodeParameters, c: CursorModel) -> Option<FlowModel> {
    let after_back = match args.lookup("back"@) {
        Some(v) => match usize_of(v) {
            None => None,
            Some(n) => back_flow(n as int, ReturnActions::Freeze, c),
        },
        None => Some(FlowModel::Next(c)),
    };
    match after_back {
        Some(FlowModel::Next(c)) => match args.lookup("end"@) {
            Some(v) => {
                let idx = if v == "true"@ {
                    c.state.idx + 1
                } else {
                    c.state.idx
                };
                if idx > usize::MAX {
                    None
                } else {
                    Some(
                        FlowModel::Done(
                            Ok((0, ReturnActions::Chain)),
                            StateModel { idx, ..c.state },
                        ),
                    )
                }
            },
            None => match args.lookup("pass"@) {
                Some(v) => Some(
                    FlowModel::Done(Err((ErrModel::Pass(v), c.state.harderr)), c.state),
                ),
                None => match args.lookup("err"@) {
                    Some(v) => Some(
                        FlowModel::Done(Err((ErrModel::Msg(v), c.state.harderr)), c.state),
                    ),
                    None => Some(FlowModel::Next(c)),
                },
            },
        },
        other => other,
    }
}

/// What the arguments of a matched node do, in order (see
/// [`args_prelude`], [`set_arg`] and [`args_tail`]). `None` where the walk
/// would stop on a panic.
pub open spec fn args_flow(
    tokens: Seq<TokenModel>,
    args: NodeParameters,
    kind: TokenModel,
    found: Option<NodeModel>,
    c: CursorModel,
) -> Option<FlowModel> {
    match args_prelude(args, c) {
        None => None,
        Some(c3) => match set_arg(tokens, args, kind, found, c3) {
            None => None,
            Some(c4) => args_tail(args, c4),
        },
    }
}

/// The result of walking the nodes of structure `id` from token `idx` on:
/// the node built, or the error that stopped it, with the token position
/// reached. `None` where the walk panics or takes more than `fuel` steps.
pub open spec fn walk_node(
    fuel: nat,
    tokens: Seq<TokenModel>,
    syntax: Tree,
    params: Seq<(String, String)>,
    idx: int,
    id: Seq<char>,
) -> Option<(Result<NodeModel, (ErrModel, bool)>, int)>
    decreases fuel, 4nat,
{
    match syntax.lookup(id) {
        None => None,
        Some(head) => {
            let start = CursorModel {
                at: 0,
                advance_node: true,
                advance_tok: true,
                state: StateModel { idx, data: prep_fields(head.parameters@), harderr: false },
            };
            match walk_scope(fuel, tokens, syntax, params, head.nodes@, start) {
                None => None,
                Some((Ok(_), st)) => Some(
                    (Ok(NodeModel { name: TokenModel::Text(id), data: None, nodes: st.data }), st.idx),
                ),
                Some((Err(e), st)) => Some((Err(e), st.idx)),
            }
        },
    }
}

/// The result of walking the list `nodes` from cursor `c` on.
pub open spec fn walk_scope(
    fuel: nat,
    tokens: Seq<TokenModel>,
    syntax: Tree,
    params: Seq<(String, String)>,
    nodes: Seq<ast_parser::NodeType>,
    c: CursorModel,
) -> Option<(OutcomeModel, StateModel)>
    decreases fuel, 3nat,
{
    if fuel == 0 {
        None
    } else if c.at < 0 || c.at >= nodes.len() {
        Some((Ok((0, ReturnActions::Advance)), c.state))
    } else {
        let c = CursorModel { advance_node: true, advance_tok: true, ..c };
        if c.state.idx >= tokens.len() {
            if maybes_end_at(nodes, c.at) == nodes.len() {
                Some((Ok((0, ReturnActions::Advance)), c.state))
            } else if c.at >= nodes.len() - 1 {
                Some((Err((ErrModel::FileEndPeaceful, true)), c.state))
            } else {
                Some((Err((ErrModel::FileEnd, c.state.harderr)), c.state))
            }
        } else {
            match step_flow(fuel, tokens, syntax, params, nodes, c) {
                None => None,
                Some(FlowModel::Done(o, st)) => Some((o, st)),
                Some(FlowModel::Next(c2)) => walk_scope(
                    (fuel - 1) as nat,
                    tokens,
                    syntax,
                    params,
                    nodes,
                    c2,
                ),
            }
        }
    }
}

/// One step of a walk: what the node at the cursor does with the token at
/// the cursor.
pub open spec fn step_flow(
    fuel: nat,
    tokens: Seq<TokenModel>,
    syntax: Tree,
    params: Seq<(String, String)>,
    nodes: Seq<ast_parser::NodeType>,
    c: CursorModel,
) -> Option<FlowModel>
    decreases fuel, 2nat,
{
    let tok = tokens[c.state.idx];
    match nodes[c.at] {
        ast_parser::NodeType::Expect(node) => match compare_tokens(node.kind@, tok) {
            CompareModel::Eq => match args_flow(tokens, node.arguments, node.kind@, None, c) {
                Some(FlowModel::Next(c2)) => match advance(c2) {
                    Some(c3) => Some(FlowModel::Next(c3)),
                    None => None,
                },
                other => other,
            },
            CompareModel::NotEq => Some(
                FlowModel::Done(
                    Err((ErrModel::Expected(node.kind@, tok), c.state.harderr)),
                    c.state,
                ),
            ),
            CompareModel::Ident(ident) => struct_flow(
                fuel,
                tokens,
                syntax,
                params,
                nodes,
                ident,
                node,
                false,
                c,
            ),
        },
        ast_parser::NodeType::Maybe(node) => match compare_tokens(node.kind@, tok) {
            CompareModel::Eq => match args_flow(tokens, node.arguments, node.kind@, None, c) {
                Some(FlowModel::Next(c2)) => match advance(c2) {
                    Some(c3) => scope_flow(fuel, tokens, syntax, params, node.nodes@, c3),
                    None => None,
                },
                other => other,
            },
            CompareModel::NotEq => match advance(CursorModel { advance_tok: false, ..c }) {
                Some(c2) => Some(FlowModel::Next(c2)),
                None => None,
            },
            CompareModel::Ident(ident) => struct_flow(
                fuel,
                tokens,
                syntax,
                params,
                nodes,
                ident,
                node,
                true,
                c,
            ),
        },
        ast_parser::NodeType::Command(_) => match advance(c) {
            Some(c2) => Some(FlowModel::Next(c2)),
            None => None,
        },
        ast_parser::NodeType::ArgsCondition(args_con) => {
            let c2 = CursorModel { at: c.at + 1, ..c };
            if all_match(args_con.params, params) {
                scope_flow(fuel, tokens, syntax, params, args_con.nodes@, c2)
            } else {
                Some(FlowModel::Next(c2))
            }
        },
    }
}

/// The error message when a `pass` finds no node that stops it.
pub open spec fn no_stop_message() -> Seq<char> {
    seq![
        'C', 'o', 'u', 'l', 'd', ' ', 'n', 'o', 't', ' ', 'f', 'i', 'n', 'd', ' ', 'b', 'r', 'e', 'a',
        'k', ' ', 'w', 'i', 't', 'h', ' ', 'm', 'a', 't', 'c', 'h', 'i', 'n', 'g', ' ', 'n', 'a', 'm',
        'e',
    ]
}

/// Parses the structure named by a text token of the syntax, walks the
/// node's own scope and applies the node's arguments with the built node as
/// what was found. A failure of an optional (`recoverable`) node that is not
/// hard skips the node and goes back to the token where it started.
pub open spec fn struct_flow(
    fuel: nat,
    tokens: Seq<TokenModel>,
    syntax: Tree,
    params: Seq<(String, String)>,
    nodes: Seq<ast_parser::NodeType>,
    ident: Seq<char>,
    node: ast_parser::Node,
    recoverable: bool,
    c: CursorModel,
) -> Option<FlowModel>
    decreases fuel, 1nat,
{
    if fuel == 0 {
        None
    } else {
        match walk_node(
            (fuel - 1) as nat,
            tokens,
            syntax,
            node.arguments.entries@,
            c.state.idx,
            ident,
        ) {
            None => None,
            Some((Ok(nd), idx)) => match scope_flow(
                fuel,
                tokens,
                syntax,
                params,
                node.nodes@,
                with_idx(c, idx),
            ) {
                Some(FlowModel::Next(c2)) => match args_flow(
                    tokens,
                    node.arguments,
                    node.kind@,
                    Some(nd),
                    c2,
                ) {
                    Some(FlowModel::Next(c3)) => match advance(
                        CursorModel { advance_tok: false, ..c3 },
                    ) {
                        Some(c4) => Some(FlowModel::Next(c4)),
                        None => None,
                    },
                    other => other,
                },
                other => other,
            },
            Some((Err((e, hard)), idx)) => {
                let c1 = with_idx(c, idx);
                match e {
                    ErrModel::Pass(arg) => match find_stop(nodes, c.at + 1, arg) {
                        Some(j) => Some(FlowModel::Next(CursorModel { at: j, ..c1 })),
                        None => Some(
                            FlowModel::Done(
                                Err(
                                    (
                                        ErrModel::Msg(no_stop_message()),
                                        c1.state.harderr,
                                    ),
                                ),
                                c1.state,
                            ),
                        ),
                    },
                    ErrModel::SubOverflow(_) => None,
                    ErrModel::FileEndPeaceful => Some(
                        FlowModel::Done(Err((ErrModel::FileEndPeaceful, false)), c1.state),
                    ),
                    _ => if hard || !recoverable {
                        Some(FlowModel::Done(Err((e, c1.state.harderr)), c1.state))
                    } else {
                        match advance(
                            CursorModel { advance_node: true, advance_tok: false, ..c },
                        ) {
                            Some(c2) => Some(FlowModel::Next(c2)),
                            None => None,
                        }
                    },
                }
            },
        }
    }
}

/// Walks an inner list of nodes with the same state, then acts on how it
/// ended: a freeze or a plain step back moves back in this list, a chain
/// leaves this list too, and running off its end keeps the token.
pub open spec fn scope_flow(
    fuel: nat,
    tokens: Seq<TokenModel>,
    syntax: Tree,
    params: Seq<(String, String)>,
    inner: Seq<ast_parser::NodeType>,
    c: CursorModel,
) -> Option<FlowModel>
    decreases fuel, 0nat,
{
    if fuel == 0 {
        None
    } else {
        let start = CursorModel { at: 0, advance_node: true, advance_tok: true, state: c.state };
        match walk_scope((fuel - 1) as nat, tokens, syntax, params, inner, start) {
            None => None,
            Some((Err(e), st)) => Some(FlowModel::Done(Err(e), st)),
            Some((Ok((n, act)), st)) => {
                let c1 = CursorModel { state: st, ..c };
                match act {
                    ReturnActions::Freeze => back_flow(n, ReturnActions::Freeze, c1),
                    ReturnActions::Nothing => back_flow(n, ReturnActions::Nothing, c1),
                    ReturnActions::Chain => Some(FlowModel::Done(Ok((n, act)), st)),
                    ReturnActions::Advance => Some(
                        FlowModel::Next(CursorModel { advance_tok: false, ..c1 }),
                    ),
                }
            },
        }
    }
}

/// The view of fields holds the view of each field at its position.
pub proof fn lemma_fields_view(v: Seq<(String, NodeType)>)
    ensures
        fields_view(v).len() == v.len(),
        forall|i: int| 0 <= i < v.len() ==> #[trigger] fields_view(v)[i] == (v[i].0@, v[i].1@),
    decreases v.len(),
{
    if v.len() > 0 {
        lemma_fields_view(v.drop_last());
    }
}

/// The view of a list of nodes holds the view of each node at its position.
pub proof fn lemma_nodes_view(v: Seq<Node>)
    ensures
        nodes_view(v).len() == v.len(),
        forall|i: int| 0 <= i < v.len() ==> #[trigger] nodes_view(v)[i] == v[i]@,
    decreases v.len(),
{
    if v.len() > 0 {
        lemma_nodes_view(v.drop_last());
    }
}

/// Replacing a field replaces its view.
pub proof fn lemma_fields_update(v: Seq<(String, NodeType)>, i: int, x: (String, NodeType))
    requires
        0 <= i < v.len(),
    ensures
        fields_view(v.update(i, x)) == fields_view(v).update(i, (x.0@, x.1@)),
{
    lemma_fields_view(v);
    lemma_fields_view(v.update(i, x));
    assert(fields_view(v.update(i, x)) =~= fields_view(v).update(i, (x.0@, x.1@)));
}

/// Appending a field appends its view.
pub proof fn lemma_fields_push(v: Seq<(String, NodeType)>, x: (String, NodeType))
    ensures
        fields_view(v.push(x)) == fields_view(v).push((x.0@, x.1@)),
{
    assert(v.push(x).drop_last() =~= v);
}

/// The fields of a node are found by the same names as the pairs they view.
pub proof fn lemma_field_index(v: Seq<(String, NodeType)>, key: Seq<char>)
    ensures
        field_index(fields_view(v), key) == key_index(v, key),
{
    lemma_fields_view(v);
    assert(field_names(fields_view(v)) =~= names(v));
}

/// The view of a token stream holds the view of each token at its position.
pub proof fn lemma_token_views(tokens: Seq<Tokens>)
    ensures
        token_views(tokens).len() == tokens.len(),
        forall|i: int| 0 <= i < tokens.len() ==> #[trigger] token_views(tokens)[i] == tokens[i]@,
{
}

enum TokenOrNode {
    Token(Tokens),
    Node(Node),
}

spec fn found_view(found: TokenOrNode, expected: TokenModel) -> NodeModel {
    match found {
        TokenOrNode::Token(t) => token_node(t@, expected),
        TokenOrNode::Node(n) => n@,
    }
}

fn construct_token(token_found: &Tokens, token_expected: &Tokens) -> (n: Node)
    ensures
        n@ == token_node(token_found@, token_expected@),
{
    let n = match token_expected {
        Tokens::String(_) => Node {
            name: token_found.clone(),
            data: Some(token_expected.clone()),
            nodes: Vec::new(),
        },
        _ => Node { name: token_found.clone(), data: None, nodes: Vec::new() },
    };
    assert(fields_view(n.nodes@) =~= Seq::empty());
    n
}

fn set(token_found: TokenOrNode, token_expected: &Tokens, place: &mut NodeType)
    ensures
        final(place)@ == store(old(place)@, found_view(token_found, token_expected@)),
{
    let node = match token_found {
        TokenOrNode::Node(node) => node,
        TokenOrNode::Token(token) => construct_token(&token, token_expected),
    };
    match place {
        NodeType::Array(arr) => {
            let ghost before = arr@;
            arr.push(node);
            proof {
                assert(arr@.drop_last() =~= before);
            }
        },
        NodeType::Value(val) => {
            *val = node;
        },
    }
}

enum CompareResult<'a> {
    Eq,
    NotEq,
    Ident(&'a str),
}

spec fn compare_view(r: CompareResult) -> CompareModel {
    match r {
        CompareResult::Eq => CompareModel::Eq,
        CompareResult::NotEq => CompareModel::NotEq,
        CompareResult::Ident(s) => CompareModel::Ident(s@),
    }
}

fn token_cmp<'a>(tree_element: &'a Tokens, source_token: &'a Tokens) -> (r: CompareResult<'a>)
    ensures
        compare_view(r) == compare_tokens(tree_element@, source_token@),
{
    match tree_element {
        Tokens::String(txt) => {
            let txt = txt.as_str();
            if str_equals(txt, "'string") {
                if let Tokens::String(_) = source_token {
                    return CompareResult::Eq;
                }
                return CompareResult::NotEq;
            }
            if str_equals(txt, "'number") {
                if let Tokens::Number(_, _, _) = source_token {
                    return CompareResult::Eq;
                }
                return CompareResult::NotEq;
            }
            if str_equals(txt, "'text") {
                if let Tokens::Text(_) = source_token {
                    return CompareResult::Eq;
                }
                return CompareResult::NotEq;
            }
            if str_equals(txt, "'char") {
                if let Tokens::Char(_) = source_token {
                    return CompareResult::Eq;
                }
                return CompareResult::NotEq;
            }
            if str_equals(txt, "'any") {
                return CompareResult::Eq;
            }
            if let Tokens::Text(str) = source_token {
                if str_equals(str.as_str(), txt) {
                    return CompareResult::Eq;
                }
                return CompareResult::NotEq;
            }
            return CompareResult::NotEq;
        },
        Tokens::Text(ident) => {
            return CompareResult::Ident(ident.as_str());
        },
        _ => {
            if *tree_element == *source_token {
                return CompareResult::Eq;
            }
            return CompareResult::NotEq;
        },
    }
}

/// return end index+1 of maybes row
fn maybes_end(syntax: &Vec<ast_parser::NodeType>, mut idx: usize) -> (r: usize)
    requires
        idx < syntax@.len(),
    ensures
        r == maybes_end_at(syntax@, idx as int),
{
    let ghost start = idx as int;
    let len = syntax.len();
    loop
        invariant_except_break
            idx < syntax@.len(),
        invariant
            len == syntax@.len(),
            maybes_end_at(syntax@, idx as int) == maybes_end_at(syntax@, start),
        ensures
            idx == maybes_end_at(syntax@, start),
        decreases syntax@.len() - idx,
    {
        if let ast_parser::NodeType::Maybe(_) = &syntax[idx] {
            assert(maybes_end_at(syntax@, idx as int) == maybes_end_at(syntax@, idx + 1));
            idx += 1;
            if idx == len {
                assert(maybes_end_at(syntax@, idx as int) == idx);
                break;
            }
        } else {
            break;
        }
    }
    return idx;
}

fn insert_field(map: &mut Vec<(String, NodeType)>, key: String, value: NodeType)
    ensures
        fields_view(final(map)@) == match field_index(fields_view(old(map)@), key@) {
            Some(i) => fields_view(old(map)@).update(i, (key@, value@)),
            None => fields_view(old(map)@).push((key@, value@)),
        },
{
    proof {
        lemma_field_index(map@, key@);
        lemma_key_index(map@, key@);
    }
    match find_key(map, key.as_str()) {
        Some(i) => {
            proof {
                lemma_fields_update(map@, i as int, (key, value));
            }
            map.set(i, (key, value));
        },
        None => {
            proof {
                lemma_fields_push(map@, (key, value));
            }
            map.push((key, value));
        },
    }
}

fn prep_nodes(syntax: &Tree, id: &str) -> (r: Option<Vec<(String, NodeType)>>)
    ensures
        match syntax.lookup(id@) {
            None => r is None,
            Some(head) => r matches Some(v) && fields_view(v@) == prep_fields(head.parameters@),
        },
{
    let mut map: Vec<(String, NodeType)> = Vec::new();
    match syntax.get(id) {
        Some(node) => {
            let mut i: usize = 0;
            proof {
                assert(node.parameters@.take(0) =~= Seq::<HeadParam>::empty());
                assert(fields_view(map@) =~= Seq::empty());
            }
            while i < node.parameters.len()
                invariant
                    0 <= i <= node.parameters@.len(),
                    fields_view(map@) == prep_fields(node.parameters@.take(i as int)),
                decreases node.parameters@.len() - i,
            {
                proof {
                    reveal_strlit("'none");
                    let t = node.parameters@.take(i + 1);
                    assert(t.drop_last() =~= node.parameters@.take(i as int));
                }
                match &node.parameters[i] {
                    HeadParam::Array(arr) => {
                        insert_field(&mut map, arr.clone(), NodeType::Array(Vec::new()));
                        proof {
                            assert(nodes_view(Seq::<Node>::empty()) =~= Seq::<NodeModel>::empty());
                        }
                    },
                    HeadParam::Value(val) => {
                        let none = Node {
                            name: Tokens::Text("'none".to_owned()),
                            data: None,
                            nodes: Vec::new(),
                        };
                        proof {
                            assert(fields_view(none.nodes@) =~= Seq::empty());
                        }
                        insert_field(&mut map, val.clone(), NodeType::Value(none));
                    },
                }
                i = i + 1;
            }
            proof {
                assert(node.parameters@.take(i as int) =~= node.parameters@);
            }
        },
        None => {
            return None;
        },
    }
    Some(map)
}

/// Whether every pair of `cond` is a parameter of `params` with that value.
fn args_match(cond: &NodeParameters, params: &NodeParameters) -> (r: bool)
    ensures
        r == all_match(*cond, params.entries@),
{
    let mut all_match = true;
    let mut i: usize = 0;
    while i < cond.entries.len()
        invariant
            0 <= i <= cond.entries@.len(),
            all_match == forall|j: int|
                0 <= j < i ==> param_lookup(params.entries@, (#[trigger] cond.entries@[j]).0@) == Some(
                    cond.entries@[j].1@,
                ),
        decreases cond.entries@.len() - i,
    {
        let arg = &cond.entries[i];
        match params.get(arg.0.as_str()) {
            Some(param) => {
                if !str_equals(param.as_str(), arg.1.as_str()) {
                    all_match = false;
                }
            },
            None => {
                all_match = false;
            },
        }
        i = i + 1;
    }
    all_match
}

/// Whether the node stops a `pass` named `arg`.
fn stops_here(n: &ast_parser::NodeType, arg: &str) -> (r: bool)
    ensures
        r == stops_pass(*n, arg@),
{
    proof {
        reveal_strlit("stop");
    }
    let args = match n {
        ast_parser::NodeType::Expect(node) => &node.arguments,
        ast_parser::NodeType::Maybe(node) => &node.arguments,
        _ => {
            return false;
        },
    };
    match args.get("stop") {
        Some(v) => str_equals(v.as_str(), arg),
        None => false,
    }
}

/// Position in the list of nodes, and whether the next step moves to the next
/// node and to the next token.
struct Cursor {
    node_idx: usize,
    advance_node: bool,
    advance_tok: bool,
}

spec fn state_view(idx: usize, data: Seq<(String, NodeType)>, harderr: bool) -> StateModel {
    StateModel { idx: idx as int, data: fields_view(data), harderr }
}

spec fn cursor_view(
    c: Cursor,
    idx: usize,
    data: Seq<(String, NodeType)>,
    harderr: bool,
) -> CursorModel {
    CursorModel {
        at: c.node_idx as int,
        advance_node: c.advance_node,
        advance_tok: c.advance_tok,
        state: state_view(idx, data, harderr),
    }
}

spec fn flow_view(
    r: Option<Outcome>,
    c: Cursor,
    idx: usize,
    data: Seq<(String, NodeType)>,
    harderr: bool,
) -> FlowModel {
    match r {
        None => FlowModel::Next(cursor_view(c, idx, data, harderr)),
        Some(o) => FlowModel::Done(outcome_view(o), state_view(idx, data, harderr)),
    }
}

fn advance_cursor(cur: &mut Cursor, idx: &mut usize, data: &Vec<(String, NodeType)>, harderr: &bool)
    requires
        advance(cursor_view(*old(cur), *old(idx), data@, *harderr)) is Some,
    ensures
        advance(cursor_view(*old(cur), *old(idx), data@, *harderr)) == Some(
            cursor_view(*final(cur), *final(idx), data@, *harderr),
        ),
{
    if cur.advance_node {
        cur.node_idx += 1;
    }
    if cur.advance_tok {
        *idx += 1;
    }
}

fn back(
    num: usize,
    freeze: ReturnActions,
    cur: &mut Cursor,
    idx: &mut usize,
    data: &Vec<(String, NodeType)>,
    harderr: &bool,
) -> (r: Option<Outcome>)
    requires
        back_flow(num as int, freeze, cursor_view(*old(cur), *old(idx), data@, *harderr)) is Some,
    ensures
        back_flow(num as int, freeze, cursor_view(*old(cur), *old(idx), data@, *harderr)) == Some(
            flow_view(r, *final(cur), *final(idx), data@, *harderr),
        ),
{
    if num <= cur.node_idx {
        if freeze == ReturnActions::Freeze {
            cur.advance_node = false;
        }
        cur.node_idx -= num;
        None
    } else {
        *idx += 1;
        Some(Ok((num - cur.node_idx - 1, freeze)))
    }
}

spec fn found_opt_view(found: Option<Node>) -> Option<NodeModel> {
    match found {
        Some(n) => Some(n@),
        None => None,
    }
}

fn args_prelude_exec(args: &NodeParameters, cur: &mut Cursor, idx: &mut usize, data: &Vec<(String, NodeType)>, harderr: &mut bool)
    requires
        args_prelude(*args, cursor_view(*old(cur), *old(idx), data@, *old(harderr))) is Some,
    ensures
        args_prelude(*args, cursor_view(*old(cur), *old(idx), data@, *old(harderr))) == Some(
            cursor_view(*final(cur), *final(idx), data@, *final(harderr)),
        ),
{
    proof {
        reveal_strlit("peek");
        reveal_strlit("advance");
        reveal_strlit("harderr");
        reveal_strlit("true");
    }
    if args.get("peek").is_some() {
        cur.advance_tok = false;
    }
    if let Some(num) = args.get("advance") {
        match parse_usize(num.as_str()) {
            Some(num) => {
                *idx += num;
            },
            _ => {
                *idx += 1;
            },
        }
    }
    if let Some(arg) = args.get("harderr") {
        *harderr = false;
        if str_equals(arg.as_str(), "true") {
            *harderr = true;
        }
    }
}

/// Stores what was found in the field named `key` (see [`stored`]).
fn store_found(
    tokens: &Vec<Tokens>,
    key: &str,
    kind: &Tokens,
    found: Option<Node>,
    idx: usize,
    data: &mut Vec<(String, NodeType)>,
)
    requires
        stored(token_views(tokens@), key@, kind@, found_opt_view(found), idx as int, fields_view(old(data)@)) is Some,
    ensures
        stored(token_views(tokens@), key@, kind@, found_opt_view(found), idx as int, fields_view(old(data)@)) == Some(fields_view(final(data)@)),
{
    let ghost fv = found_opt_view(found);
    let ghost tv = token_views(tokens@);
    let token = match found {
        Some(node) => TokenOrNode::Node(node),
        None => TokenOrNode::Token(tokens[idx].clone()),
    };
    proof {
        if fv is None {
            assert(tv[idx as int] == tokens@[idx as int]@);
        }
        lemma_field_index(data@, key@);
        lemma_key_index(data@, key@);
        lemma_fields_view(data@);
    }
    let i = find_key(data, key).unwrap();
    let mut entry = (String::new(), NodeType::Array(Vec::new()));
    data.set_and_swap(i, &mut entry);
    proof {
        assert(entry == old(data)@[i as int]);
    }
    set(token, kind, &mut entry.1);
    proof {
        lemma_fields_update(old(data)@, i as int, entry);
    }
    data.set(i, entry);
    proof {
        assert(data@ =~= old(data)@.update(i as int, entry));
    }
}

fn args_tail_exec(
    args: &NodeParameters,
    cur: &mut Cursor,
    idx: &mut usize,
    data: &Vec<(String, NodeType)>,
    harderr: &bool,
) -> (r: Option<Outcome>)
    requires
        args_tail(*args, cursor_view(*old(cur), *old(idx), data@, *harderr)) is Some,
    ensures
        args_tail(*args, cursor_view(*old(cur), *old(idx), data@, *harderr)) == Some(
            flow_view(r, *final(cur), *final(idx), data@, *harderr),
        ),
{
    proof {
        reveal_strlit("true");
        reveal_strlit("back");
        reveal_strlit("end");
        reveal_strlit("pass");
        reveal_strlit("err");
    }
    if let Some(arg) = args.get("back") {
        let num = parse_usize(arg.as_str()).unwrap();
        if let Some(o) = back(num, ReturnActions::Freeze, cur, idx, data, harderr) {
            return Some(o);
        }
    }
    if let Some(str) = args.get("end") {
        if str_equals(str.as_str(), "true") {
            *idx += 1;
        }
        return Some(Ok((0, ReturnActions::Chain)));
    }
    if let Some(arg) = args.get("pass") {
        return Some(Err((WalkError::Pass(arg.clone()), *harderr)));
    }
    if let Some(arg) = args.get("err") {
        return Some(Err((WalkError::Msg(arg.clone()), *harderr)));
    }
    None
}

/// Applies the arguments of a matched node (see [`args_flow`]); `found` is
/// the node built for it, or `None` when the current token was matched.
fn args_check(
    tokens: &Vec<Tokens>,
    args: &NodeParameters,
    kind: &Tokens,
    found: Option<Node>,
    cur: &mut Cursor,
    idx: &mut usize,
    data: &mut Vec<(String, NodeType)>,
    harderr: &mut bool,
) -> (r: Option<Outcome>)
    requires
        args_flow(
            token_views(tokens@),
            *args,
            kind@,
            found_opt_view(found),
            cursor_view(*old(cur), *old(idx), old(data)@, *old(harderr)),
        ) is Some,
    ensures
        args_flow(
            token_views(tokens@),
            *args,
            kind@,
            found_opt_view(found),
            cursor_view(*old(cur), *old(idx), old(data)@, *old(harderr)),
        ) == Some(flow_view(r, *final(cur), *final(idx), final(data)@, *final(harderr))),
{
    proof {
        reveal_strlit("set");
    }
    args_prelude_exec(args, cur, idx, data, harderr);
    if let Some(arg) = args.get("set") {
        store_found(tokens, arg.as_str(), kind, found, *idx, data);
    }
    args_tail_exec(args, cur, idx, data, harderr)
}

/// The value that the result of parsing a node stands for.
pub open spec fn node_result_view(r: Result<Node, (WalkError, bool)>) -> Result<NodeModel, (ErrModel, bool)> {
    match r {
        Ok(n) => Ok(n@),
        Err((e, b)) => Err((e@, b)),
    }
}

spec fn scope_start(idx: usize, data: Seq<(String, NodeType)>, harderr: bool) -> CursorModel {
    CursorModel { at: 0, advance_node: true, advance_tok: true, state: state_view(idx, data, harderr) }
}

/// Walks an inner list of nodes (see [`scope_flow`]).
fn scope_enter(
    tokens: &Vec<Tokens>,
    syntax: &Tree,
    params: &NodeParameters,
    inner: &Vec<ast_parser::NodeType>,
    cur: &mut Cursor,
    idx: &mut usize,
    data: &mut Vec<(String, NodeType)>,
    harderr: &mut bool,
    Ghost(fuel): Ghost<nat>,
) -> (r: Option<Outcome>)
    requires
        scope_flow(
            fuel,
            token_views(tokens@),
            *syntax,
            params.entries@,
            inner@,
            cursor_view(*old(cur), *old(idx), old(data)@, *old(harderr)),
        ) is Some,
    ensures
        scope_flow(
            fuel,
            token_views(tokens@),
            *syntax,
            params.entries@,
            inner@,
            cursor_view(*old(cur), *old(idx), old(data)@, *old(harderr)),
        ) == Some(flow_view(r, *final(cur), *final(idx), final(data)@, *final(harderr))),
    decreases fuel, 0nat,
{
    let res = parse_scope(tokens, syntax, params, idx, inner, data, harderr, Ghost((fuel - 1) as nat));
    match res {
        Ok(back_to) => match back_to.1 {
            ReturnActions::Freeze => back(back_to.0, ReturnActions::Freeze, cur, idx, data, harderr),
            ReturnActions::Nothing => back(back_to.0, ReturnActions::Nothing, cur, idx, data, harderr),
            ReturnActions::Chain => Some(Ok(back_to)),
            ReturnActions::Advance => {
                cur.advance_tok = false;
                None
            },
        },
        Err(err) => Some(Err(err)),
    }
}

/// Moves to the first later node that stops a `pass` named `arg`; an error
/// when there is none.
fn skip_to_stop(nodes: &Vec<ast_parser::NodeType>, arg: &str, cur: &mut Cursor, harderr: bool) -> (r:
    Option<Outcome>)
    requires
        old(cur).node_idx < nodes@.len(),
    ensures
        match find_stop(nodes@, old(cur).node_idx + 1, arg@) {
            Some(j) => r is None && final(cur).node_idx == j && final(cur).advance_node == old(
                cur,
            ).advance_node && final(cur).advance_tok == old(cur).advance_tok,
            None => r matches Some(o) && outcome_view(o) == Err::<(int, ReturnActions), (ErrModel, bool)>(
                (ErrModel::Msg(no_stop_message()), harderr),
            ),
        },
{
    let ghost start_at = cur.node_idx as int;
    let n = nodes.len();
    let mut j = cur.node_idx;
    loop
        invariant_except_break
            start_at <= j < nodes@.len(),
            find_stop(nodes@, j + 1, arg@) == find_stop(nodes@, start_at + 1, arg@),
        invariant
            n == nodes@.len(),
            start_at == old(cur).node_idx,
            *cur == *old(cur),
        ensures
            start_at < j < nodes@.len(),
            find_stop(nodes@, start_at + 1, arg@) == Some(j as int),
        decreases nodes@.len() - j,
    {
        j += 1;
        if j >= n {
            assert(find_stop(nodes@, j as int, arg@) is None);
            let msg = "Could not find break with matching name".to_owned();
            proof {
                reveal_strlit("Could not find break with matching name");
                assert(msg@ =~= no_stop_message());
            }
            return Some(Err((WalkError::Msg(msg), harderr)));
        }
        if stops_here(&nodes[j], arg) {
            break;
        }
    }
    cur.node_idx = j;
    None
}

/// Parses a structure named by the syntax at the current token (see
/// [`struct_flow`]).
fn open_struct(
    tokens: &Vec<Tokens>,
    syntax: &Tree,
    params: &NodeParameters,
    nodes: &Vec<ast_parser::NodeType>,
    ident: &str,
    node: &ast_parser::Node,
    recoverable: bool,
    cur: &mut Cursor,
    idx: &mut usize,
    data: &mut Vec<(String, NodeType)>,
    harderr: &mut bool,
    Ghost(fuel): Ghost<nat>,
) -> (r: Option<Outcome>)
    requires
        struct_flow(
            fuel,
            token_views(tokens@),
            *syntax,
            params.entries@,
            nodes@,
            ident@,
            *node,
            recoverable,
            cursor_view(*old(cur), *old(idx), old(data)@, *old(harderr)),
        ) is Some,
        old(cur).node_idx < nodes@.len(),
    ensures
        struct_flow(
            fuel,
            token_views(tokens@),
            *syntax,
            params.entries@,
            nodes@,
            ident@,
            *node,
            recoverable,
            cursor_view(*old(cur), *old(idx), old(data)@, *old(harderr)),
        ) == Some(flow_view(r, *final(cur), *final(idx), final(data)@, *final(harderr))),
    decreases fuel, 1nat,
{
    let start_idx = *idx;
    match parse_node_fuel(tokens, syntax, &node.arguments, idx, ident, Ghost((fuel - 1) as nat)) {
        Ok(nd) => {
            if let Some(o) = scope_enter(
                tokens,
                syntax,
                params,
                &node.nodes,
                cur,
                idx,
                data,
                harderr,
                Ghost(fuel),
            ) {
                return Some(o);
            }
            if let Some(o) = args_check(
                tokens,
                &node.arguments,
                &node.kind,
                Some(nd),
                cur,
                idx,
                data,
                harderr,
            ) {
                return Some(o);
            }
            cur.advance_tok = false;
            advance_cursor(cur, idx, data, harderr);
            None
        },
        Err(err) => {
            let (e, hard) = err;
            match e {
                WalkError::Pass(arg) => skip_to_stop(nodes, arg.as_str(), cur, *harderr),
                WalkError::SubOverflow(_) => {
                    proof {
                        assert(false);
                    }
                    None
                },
                WalkError::FileEndPeaceful => Some(Err((WalkError::FileEndPeaceful, false))),
                e => {
                    cur.advance_tok = false;
                    if hard || !recoverable {
                        return Some(Err((e, *harderr)));
                    }
                    *idx = start_idx;
                    cur.advance_node = true;
                    advance_cursor(cur, idx, data, harderr);
                            None
                },
            }
        },
    }
}

/// One step of a walk (see [`step_flow`]).
fn step(
    tokens: &Vec<Tokens>,
    syntax: &Tree,
    params: &NodeParameters,
    nodes: &Vec<ast_parser::NodeType>,
    cur: &mut Cursor,
    idx: &mut usize,
    data: &mut Vec<(String, NodeType)>,
    harderr: &mut bool,
    Ghost(fuel): Ghost<nat>,
) -> (r: Option<Outcome>)
    requires
        *old(idx) < tokens@.len(),
        old(cur).node_idx < nodes@.len(),
        step_flow(
            fuel,
            token_views(tokens@),
            *syntax,
            params.entries@,
            nodes@,
            cursor_view(*old(cur), *old(idx), old(data)@, *old(harderr)),
        ) is Some,
    ensures
        step_flow(
            fuel,
            token_views(tokens@),
            *syntax,
            params.entries@,
            nodes@,
            cursor_view(*old(cur), *old(idx), old(data)@, *old(harderr)),
        ) == Some(flow_view(r, *final(cur), *final(idx), final(data)@, *final(harderr))),
    decreases fuel, 2nat,
{
    proof {
        lemma_token_views(tokens@);
    }
    match &nodes[cur.node_idx] {
        ast_parser::NodeType::Expect(node) => match token_cmp(&node.kind, &tokens[*idx]) {
            CompareResult::Eq => {
                if let Some(o) = args_check(
                    tokens,
                    &node.arguments,
                    &node.kind,
                    None,
                    cur,
                    idx,
                    data,
                    harderr,
                ) {
                    return Some(o);
                }
                advance_cursor(cur, idx, data, harderr);
                None
            },
            CompareResult::NotEq => Some(
                Err((WalkError::Expected(node.kind.clone(), tokens[*idx].clone()), *harderr)),
            ),
            CompareResult::Ident(ident) => open_struct(
                tokens,
                syntax,
                params,
                nodes,
                ident,
                node,
                false,
                cur,
                idx,
                data,
                harderr,
                Ghost(fuel),
            ),
        },
        ast_parser::NodeType::Maybe(node) => match token_cmp(&node.kind, &tokens[*idx]) {
            CompareResult::Eq => {
                if let Some(o) = args_check(
                    tokens,
                    &node.arguments,
                    &node.kind,
                    None,
                    cur,
                    idx,
                    data,
                    harderr,
                ) {
                    return Some(o);
                }
                advance_cursor(cur, idx, data, harderr);
                scope_enter(tokens, syntax, params, &node.nodes, cur, idx, data, harderr, Ghost(fuel))
            },
            CompareResult::NotEq => {
                cur.advance_tok = false;
                advance_cursor(cur, idx, data, harderr);
                None
            },
            CompareResult::Ident(ident) => open_struct(
                tokens,
                syntax,
                params,
                nodes,
                ident,
                node,
                true,
                cur,
                idx,
                data,
                harderr,
                Ghost(fuel),
            ),
        },
        ast_parser::NodeType::Command(_) => {
            advance_cursor(cur, idx, data, harderr);
            None
        },
        ast_parser::NodeType::ArgsCondition(args_con) => {
            let n = nodes.len();
            assert(cur.node_idx < n);
            cur.node_idx += 1;
            if args_match(&args_con.params, params) {
                scope_enter(
                    tokens,
                    syntax,
                    params,
                    &args_con.nodes,
                    cur,
                    idx,
                    data,
                    harderr,
                    Ghost(fuel),
                )
            } else {
                None
            }
        },
    }
}

/// Walks the list `nodes` from its first node (see [`walk_scope`]).
fn parse_scope(
    tokens: &Vec<Tokens>,
    syntax: &Tree,
    params: &NodeParameters,
    idx: &mut usize,
    nodes: &Vec<ast_parser::NodeType>,
    data: &mut Vec<(String, NodeType)>,
    harderr: &mut bool,
    Ghost(fuel): Ghost<nat>,
) -> (r: Outcome)
    requires
        walk_scope(
            fuel,
            token_views(tokens@),
            *syntax,
            params.entries@,
            nodes@,
            scope_start(*old(idx), old(data)@, *old(harderr)),
        ) is Some,
    ensures
        walk_scope(
            fuel,
            token_views(tokens@),
            *syntax,
            params.entries@,
            nodes@,
            scope_start(*old(idx), old(data)@, *old(harderr)),
        ) == Some((outcome_view(r), state_view(*final(idx), final(data)@, *final(harderr)))),
    decreases fuel, 3nat,
{
    let ghost target = walk_scope(
        fuel,
        token_views(tokens@),
        *syntax,
        params.entries@,
        nodes@,
        scope_start(*idx, data@, *harderr),
    );
    let mut cur = Cursor { node_idx: 0, advance_node: true, advance_tok: true };
    let ghost mut f = fuel;
    while cur.node_idx < nodes.len()
        invariant
            f <= fuel,
            target is Some,
            target == walk_scope(
                fuel,
                token_views(tokens@),
                *syntax,
                params.entries@,
                nodes@,
                scope_start(*old(idx), old(data)@, *old(harderr)),
            ),
            walk_scope(
                f,
                token_views(tokens@),
                *syntax,
                params.entries@,
                nodes@,
                cursor_view(cur, *idx, data@, *harderr),
            ) == target,
        decreases f,
    {
        cur.advance_node = true;
        cur.advance_tok = true;
        if *idx >= tokens.len() {
            if maybes_end(nodes, cur.node_idx) == nodes.len() {
                return Ok((0, ReturnActions::Advance));
            }
            if cur.node_idx >= nodes.len() - 1 {
                return Err((WalkError::FileEndPeaceful, true));
            }
            return Err((WalkError::FileEnd, *harderr));
        }
        if let Some(o) = step(tokens, syntax, params, nodes, &mut cur, idx, data, harderr, Ghost(f)) {
            return o;
        }
        proof {
            f = (f - 1) as nat;
        }
    }
    Ok((0, ReturnActions::Advance))
}

/// Parses the structure `id` from token `*idx` on (see [`walk_node`]).
fn parse_node_fuel(
    tokens: &Vec<Tokens>,
    syntax: &Tree,
    params: &NodeParameters,
    idx: &mut usize,
    id: &str,
    Ghost(fuel): Ghost<nat>,
) -> (r: Result<Node, (WalkError, bool)>)
    requires
        walk_node(fuel, token_views(tokens@), *syntax, params.entries@, *old(idx) as int, id@) is Some,
    ensures
        walk_node(fuel, token_views(tokens@), *syntax, params.entries@, *old(idx) as int, id@) == Some(
            (node_result_view(r), *final(idx) as int),
        ),
    decreases fuel, 4nat,
{
    let mut nodes = prep_nodes(syntax, id).unwrap();
    let head = syntax.get(id).unwrap();
    let mut harderr = false;
    match parse_scope(tokens, syntax, params, idx, &head.nodes, &mut nodes, &mut harderr, Ghost(fuel)) {
        Ok(_) => Ok(Node { name: Tokens::Text(id.to_owned()), data: None, nodes }),
        Err(err) => Err(err),
    }
}

/// The walk of structure `id` from token `idx` on comes to an end: it
/// neither panics nor runs on forever.
pub open spec fn walk_ends(
    tokens: Seq<TokenModel>,
    syntax: Tree,
    params: Seq<(String, String)>,
    idx: int,
    id: Seq<char>,
) -> bool {
    exists|fuel: nat| walk_node(fuel, tokens, syntax, params, idx, id) is Some
}

/// What the walk of structure `id` from token `idx` on gives, where it ends:
/// the node built or the error that stopped it, and the token position
/// reached.
pub open spec fn walk_result(
    tokens: Seq<TokenModel>,
    syntax: Tree,
    params: Seq<(String, String)>,
    idx: int,
    id: Seq<char>,
) -> (Result<NodeModel, (ErrModel, bool)>, int) {
    walk_node(
        choose|fuel: nat| walk_node(fuel, tokens, syntax, params, idx, id) is Some,
        tokens,
        syntax,
        params,
        idx,
        id,
    ).unwrap()
}

/// Parses structure `id` of `syntax` from token `*idx` on, with `params` as
/// the arguments of the node that asked for it, and leaves `*idx` at the
/// token where the walk stopped. Nothing is printed: the value of a `print`
/// argument is ignored.
pub fn parse_node(
    tokens: &Vec<Tokens>,
    syntax: &Tree,
    params: &NodeParameters,
    idx: &mut usize,
    id: &String,
) -> (r: Result<Node, (WalkError, bool)>)
    requires
        walk_ends(token_views(tokens@), *syntax, params.entries@, *old(idx) as int, id@),
    ensures
        walk_result(token_views(tokens@), *syntax, params.entries@, *old(idx) as int, id@) == (
            node_result_view(r),
            *final(idx) as int,
        ),
{
    let ghost fuel = choose|fuel: nat|
        walk_node(fuel, token_views(tokens@), *syntax, params.entries@, *idx as int, id@) is Some;
    parse_node_fuel(tokens, syntax, params, idx, id.as_str(), Ghost(fuel))
}

/// The name of the structure that a whole token stream is parsed as.
pub open spec fn entry_name() -> Seq<char> {
    seq!['e', 'n', 't', 'r', 'y']
}

/// Parses the whole token stream as the structure `entry`, from the first
/// token on and with no arguments, and returns what it built or the error
/// that stopped it; printing that is left to the caller.
pub fn generate_tree(tokens: &Vec<Tokens>, syntax: &Tree) -> (r: Result<Node, (WalkError, bool)>)
    requires
        walk_ends(token_views(tokens@), *syntax, Seq::empty(), 0, entry_name()),
    ensures
        node_result_view(r) == walk_result(
            token_views(tokens@),
            *syntax,
            Seq::empty(),
            0,
            entry_name(),
        ).0,
{
    let mut idx: usize = 0;
    let params = NodeParameters { entries: Vec::new() };
    let id = "entry".to_owned();
    proof {
        reveal_strlit("entry");
        assert(id@ =~= entry_name());
        assert(params.entries@ =~= Seq::<(String, String)>::empty());
    }
    parse_node(tokens, syntax, &params, &mut idx, &id)
}

/// A walk that ends within some number of steps gives the same result with
/// any larger allowance: the result of a walk does not depend on the
/// allowance it is given.
pub proof fn lemma_walk_node_fuel(
    fuel: nat,
    more: nat,
    tokens: Seq<TokenModel>,
    syntax: Tree,
    params: Seq<(String, String)>,
    idx: int,
    id: Seq<char>,
)
    requires
        fuel <= more,
        walk_node(fuel, tokens, syntax, params, idx, id) is Some,
    ensures
        walk_node(more, tokens, syntax, params, idx, id) == walk_node(
            fuel,
            tokens,
            syntax,
            params,
            idx,
            id,
        ),
    decreases fuel, 4nat,
{
    if let Some(head) = syntax.lookup(id) {
        let start = CursorModel {
            at: 0,
            advance_node: true,
            advance_tok: true,
            state: StateModel { idx, data: prep_fields(head.parameters@), harderr: false },
        };
        lemma_walk_scope_fuel(fuel, more, tokens, syntax, params, head.nodes@, start);
    }
}

/// [`lemma_walk_node_fuel`] for the walk of a list of nodes.
pub proof fn lemma_walk_scope_fuel(
    fuel: nat,
    more: nat,
    tokens: Seq<TokenModel>,
    syntax: Tree,
    params: Seq<(String, String)>,
    nodes: Seq<ast_parser::NodeType>,
    c: CursorModel,
)
    requires
        fuel <= more,
        walk_scope(fuel, tokens, syntax, params, nodes, c) is Some,
    ensures
        walk_scope(more, tokens, syntax, params, nodes, c) == walk_scope(
            fuel,
            tokens,
            syntax,
            params,
            nodes,
            c,
        ),
    decreases fuel, 3nat,
{
    if 0 <= c.at < nodes.len() {
        let c1 = CursorModel { advance_node: true, advance_tok: true, ..c };
        if c1.state.idx < tokens.len() {
            lemma_step_fuel(fuel, more, tokens, syntax, params, nodes, c1);
            if let Some(FlowModel::Next(c2)) = step_flow(fuel, tokens, syntax, params, nodes, c1) {
                lemma_walk_scope_fuel(
                    (fuel - 1) as nat,
                    (more - 1) as nat,
                    tokens,
                    syntax,
                    params,
                    nodes,
                    c2,
                );
            }
        }
    }
}

/// [`lemma_walk_node_fuel`] for one step of a walk.
pub proof fn lemma_step_fuel(
    fuel: nat,
    more: nat,
    tokens: Seq<TokenModel>,
    syntax: Tree,
    params: Seq<(String, String)>,
    nodes: Seq<ast_parser::NodeType>,
    c: CursorModel,
)
    requires
        fuel <= more,
        0 <= c.at < nodes.len(),
        step_flow(fuel, tokens, syntax, params, nodes, c) is Some,
    ensures
        step_flow(more, tokens, syntax, params, nodes, c) == step_flow(
            fuel,
            tokens,
            syntax,
            params,
            nodes,
            c,
        ),
    decreases fuel, 2nat,
{
    let tok = tokens[c.state.idx];
    match nodes[c.at] {
        ast_parser::NodeType::Expect(node) => {
            if let CompareModel::Ident(ident) = compare_tokens(node.kind@, tok) {
                lemma_struct_fuel(fuel, more, tokens, syntax, params, nodes, ident, node, false, c);
            }
        },
        ast_parser::NodeType::Maybe(node) => match compare_tokens(node.kind@, tok) {
            CompareModel::Eq => {
                if let Some(FlowModel::Next(c2)) = args_flow(
                    tokens,
                    node.arguments,
                    node.kind@,
                    None,
                    c,
                ) {
                    if let Some(c3) = advance(c2) {
                        lemma_scope_fuel(fuel, more, tokens, syntax, params, node.nodes@, c3);
                    }
                }
            },
            CompareModel::Ident(ident) => {
                lemma_struct_fuel(fuel, more, tokens, syntax, params, nodes, ident, node, true, c);
            },
            _ => {},
        },
        ast_parser::NodeType::ArgsCondition(args_con) => {
            let c2 = CursorModel { at: c.at + 1, ..c };
            if all_match(args_con.params, params) {
                lemma_scope_fuel(fuel, more, tokens, syntax, params, args_con.nodes@, c2);
            }
        },
        _ => {},
    }
}

/// [`lemma_walk_node_fuel`] for parsing a structure named by the syntax.
pub proof fn lemma_struct_fuel(
    fuel: nat,
    more: nat,
    tokens: Seq<TokenModel>,
    syntax: Tree,
    params: Seq<(String, String)>,
    nodes: Seq<ast_parser::NodeType>,
    ident: Seq<char>,
    node: ast_parser::Node,
    recoverable: bool,
    c: CursorModel,
)
    requires
        fuel <= more,
        struct_flow(fuel, tokens, syntax, params, nodes, ident, node, recoverable, c) is Some,
    ensures
        struct_flow(more, tokens, syntax, params, nodes, ident, node, recoverable, c)
            == struct_flow(fuel, tokens, syntax, params, nodes, ident, node, recoverable, c),
    decreases fuel, 1nat,
{
    let args = node.arguments.entries@;
    lemma_walk_node_fuel(
        (fuel - 1) as nat,
        (more - 1) as nat,
        tokens,
        syntax,
        args,
        c.state.idx,
        ident,
    );
    if let Some((Ok(nd), idx)) = walk_node(
        (fuel - 1) as nat,
        tokens,
        syntax,
        args,
        c.state.idx,
        ident,
    ) {
        lemma_scope_fuel(fuel, more, tokens, syntax, params, node.nodes@, with_idx(c, idx));
    }
}

/// [`lemma_walk_node_fuel`] for walking an inner list of nodes.
pub proof fn lemma_scope_fuel(
    fuel: nat,
    more: nat,
    tokens: Seq<TokenModel>,
    syntax: Tree,
    params: Seq<(String, String)>,
    inner: Seq<ast_parser::NodeType>,
    c: CursorModel,
)
    requires
        fuel <= more,
        scope_flow(fuel, tokens, syntax, params, inner, c) is Some,
    ensures
        scope_flow(more, tokens, syntax, params, inner, c) == scope_flow(
            fuel,
            tokens,
            syntax,
            params,
            inner,
            c,
        ),
    decreases fuel, 0nat,
{
    let start = CursorModel { at: 0, advance_node: true, advance_tok: true, state: c.state };
    lemma_walk_scope_fuel((fuel - 1) as nat, (more - 1) as nat, tokens, syntax, params, inner, start);
}

/// The result of a walk that ends is what it gives within any allowance it
/// ends within.
pub proof fn lemma_walk_result(
    fuel: nat,
    tokens: Seq<TokenModel>,
    syntax: Tree,
    params: Seq<(String, String)>,
    idx: int,
    id: Seq<char>,
)
    requires
        walk_node(fuel, tokens, syntax, params, idx, id) is Some,
    ensures
        walk_ends(tokens, syntax, params, idx, id),
        walk_result(tokens, syntax, params, idx, id) == walk_node(
            fuel,
            tokens,
            syntax,
            params,
            idx,
            id,
        ).unwrap(),
{
    let f0 = choose|f: nat| walk_node(f, tokens, syntax, params, idx, id) is Some;
    if f0 <= fuel {
        lemma_walk_node_fuel(f0, fuel, tokens, syntax, params, idx, id);
    } else {
        lemma_walk_node_fuel(fuel, f0, tokens, syntax, params, idx, id);
    }
}

/// The names of the fields, in order.
pub open spec fn field_names(data: Seq<(Seq<char>, FieldModel)>) -> Seq<Seq<char>> {
    data.map_values(|f: (Seq<char>, FieldModel)| f.0)
}

/// A walk only moves forward in the token stream and never changes which
/// fields there are or their kind: a list field is only appended to, and a
/// single-value field stays a single value.
pub open spec fn keeps_shape(before: StateModel, after: StateModel) -> bool {
    &&& before.idx <= after.idx
    &&& field_names(after.data) == field_names(before.data)
    &&& fields_grow(before.data, after.data)
}

/// A field only grows: a list keeps, in front, the nodes it held and may have
/// more appended; a single value stays a single value.
pub open spec fn field_grows(before: FieldModel, after: FieldModel) -> bool {
    match before {
        FieldModel::Array(a0) => match after {
            FieldModel::Array(a1) => a0.len() <= a1.len() && forall|j: int|
                0 <= j < a0.len() ==> #[trigger] a1[j] == a0[j],
            FieldModel::Value(_) => false,
        },
        FieldModel::Value(_) => after is Value,
    }
}

/// Each field of `after` grows from the field at the same place in `before`.
pub open spec fn fields_grow(
    before: Seq<(Seq<char>, FieldModel)>,
    after: Seq<(Seq<char>, FieldModel)>,
) -> bool {
    &&& after.len() == before.len()
    &&& forall|i: int|
        0 <= i < before.len() ==> field_grows(#[trigger] before[i].1, after[i].1)
}

/// No two fields have the same name.
pub open spec fn distinct_names(data: Seq<(Seq<char>, FieldModel)>) -> bool {
    forall|i: int, j: int| 0 <= i < j < data.len() ==> #[trigger] data[i].0 != #[trigger] data[j].0
}

/// The fields of a new node have distinct names.
pub proof fn lemma_prep_fields_distinct(params: Seq<HeadParam>)
    ensures
        distinct_names(prep_fields(params)),
    decreases params.len(),
{
    if params.len() > 0 {
        let fields = prep_fields(params.drop_last());
        lemma_prep_fields_distinct(params.drop_last());
        let name = match params.last() {
            HeadParam::Array(n) => n@,
            HeadParam::Value(n) => n@,
        };
        lemma_first_index(field_names(fields), name);
        assert forall|i: int| 0 <= i < fields.len() implies #[trigger] field_names(fields)[i]
            == fields[i].0 by {}
        let r = prep_fields(params);
        assert forall|i: int, j: int| 0 <= i < j < r.len() implies #[trigger] r[i].0
            != #[trigger] r[j].0 by {
            if j == fields.len() {
                assert(field_names(fields)[i] == fields[i].0);
            } else {
                assert(fields[i].0 != fields[j].0);
            }
        }
    }
}

/// A walk keeps the names of the fields, so it keeps them distinct.
pub proof fn lemma_distinct_names_kept(
    before: Seq<(Seq<char>, FieldModel)>,
    after: Seq<(Seq<char>, FieldModel)>,
)
    requires
        distinct_names(before),
        field_names(after) == field_names(before),
    ensures
        distinct_names(after),
{
    assert(field_names(after).len() == after.len());
    assert(field_names(before).len() == before.len());
    assert forall|i: int, j: int| 0 <= i < j < after.len() implies #[trigger] after[i].0
        != #[trigger] after[j].0 by {
        assert(field_names(after)[i] == after[i].0);
        assert(field_names(after)[j] == after[j].0);
        assert(field_names(before)[i] == before[i].0);
        assert(field_names(before)[j] == before[j].0);
    }
}

/// [`keeps_shape`] for where a step leads.
pub open spec fn flow_keeps_shape(before: StateModel, f: FlowModel) -> bool {
    match f {
        FlowModel::Next(c) => keeps_shape(before, c.state),
        FlowModel::Done(_, st) => keeps_shape(before, st),
    }
}

proof fn lemma_args_shape(
    tokens: Seq<TokenModel>,
    args: NodeParameters,
    kind: TokenModel,
    found: Option<NodeModel>,
    c: CursorModel,
)
    ensures
        args_flow(tokens, args, kind, found, c) matches Some(f) ==> flow_keeps_shape(c.state, f),
{
    if let Some(c3) = args_prelude(args, c) {
        if let Some(c4) = set_arg(tokens, args, kind, found, c3) {
            if let Some(key) = args.lookup("set"@) {
                if let Some(d) = stored(tokens, key, kind, found, c3.state.idx, c3.state.data) {
                    let data = c3.state.data;
                    lemma_first_index(field_names(data), key);
                    assert(field_names(d) =~= field_names(data));
                }
            }
            assert(keeps_shape(c.state, c4.state));
        }
    }
}

/// Parsing a structure never moves back in the token stream, and a node it
/// builds is named after the structure, holds no data and has one field per
/// parameter name of the structure, in the order the names first appear,
/// each of the kind the last parameter of that name declares; no two of its
/// fields have the same name.
pub proof fn lemma_walk_node_shape(
    fuel: nat,
    tokens: Seq<TokenModel>,
    syntax: Tree,
    params: Seq<(String, String)>,
    idx: int,
    id: Seq<char>,
)
    ensures
        walk_node(fuel, tokens, syntax, params, idx, id) matches Some((r, end)) ==> {
            &&& idx <= end
            &&& r matches Ok(nd) ==> {
                &&& nd.name == TokenModel::Text(id)
                &&& nd.data is None
                &&& field_names(nd.nodes) == field_names(
                    prep_fields(syntax.lookup(id).unwrap().parameters@),
                )
                &&& fields_grow(prep_fields(syntax.lookup(id).unwrap().parameters@), nd.nodes)
                &&& distinct_names(nd.nodes)
            }
        },
    decreases fuel, 4nat,
{
    if let Some(head) = syntax.lookup(id) {
        lemma_prep_fields_distinct(head.parameters@);
        let start = CursorModel {
            at: 0,
            advance_node: true,
            advance_tok: true,
            state: StateModel { idx, data: prep_fields(head.parameters@), harderr: false },
        };
        lemma_walk_scope_shape(fuel, tokens, syntax, params, head.nodes@, start);
        if let Some((_, st)) = walk_scope(fuel, tokens, syntax, params, head.nodes@, start) {
            lemma_distinct_names_kept(prep_fields(head.parameters@), st.data);
        }
    }
}

/// Walking a list of nodes keeps the shape of the state (see
/// [`keeps_shape`]), whether the walk ends well or with an error: what was
/// appended to a list field stays there.
pub proof fn lemma_walk_scope_shape(
    fuel: nat,
    tokens: Seq<TokenModel>,
    syntax: Tree,
    params: Seq<(String, String)>,
    nodes: Seq<ast_parser::NodeType>,
    c: CursorModel,
)
    ensures
        walk_scope(fuel, tokens, syntax, params, nodes, c) matches Some((_, st)) ==> keeps_shape(
            c.state,
            st,
        ),
    decreases fuel, 3nat,
{
    if fuel > 0 && 0 <= c.at < nodes.len() {
        let c1 = CursorModel { advance_node: true, advance_tok: true, ..c };
        if c1.state.idx < tokens.len() {
            lemma_step_shape(fuel, tokens, syntax, params, nodes, c1);
            if let Some(FlowModel::Next(c2)) = step_flow(fuel, tokens, syntax, params, nodes, c1) {
                lemma_walk_scope_shape((fuel - 1) as nat, tokens, syntax, params, nodes, c2);
            }
        }
    }
}

/// One step of a walk keeps the shape of the state.
pub proof fn lemma_step_shape(
    fuel: nat,
    tokens: Seq<TokenModel>,
    syntax: Tree,
    params: Seq<(String, String)>,
    nodes: Seq<ast_parser::NodeType>,
    c: CursorModel,
)
    requires
        0 <= c.at < nodes.len(),
    ensures
        step_flow(fuel, tokens, syntax, params, nodes, c) matches Some(f) ==> flow_keeps_shape(
            c.state,
            f,
        ),
    decreases fuel, 2nat,
{
    let tok = tokens[c.state.idx];
    match nodes[c.at] {
        ast_parser::NodeType::Expect(node) => match compare_tokens(node.kind@, tok) {
            CompareModel::Eq => {
                lemma_args_shape(tokens, node.arguments, node.kind@, None, c);
            },
            CompareModel::Ident(ident) => {
                lemma_struct_shape(fuel, tokens, syntax, params, nodes, ident, node, false, c);
            },
            _ => {},
        },
        ast_parser::NodeType::Maybe(node) => match compare_tokens(node.kind@, tok) {
            CompareModel::Eq => {
                lemma_args_shape(tokens, node.arguments, node.kind@, None, c);
                if let Some(FlowModel::Next(c2)) = args_flow(
                    tokens,
                    node.arguments,
                    node.kind@,
                    None,
                    c,
                ) {
                    if let Some(c3) = advance(c2) {
                        lemma_scope_shape(fuel, tokens, syntax, params, node.nodes@, c3);
                    }
                }
            },
            CompareModel::Ident(ident) => {
                lemma_struct_shape(fuel, tokens, syntax, params, nodes, ident, node, true, c);
            },
            _ => {},
        },
        ast_parser::NodeType::ArgsCondition(args_con) => {
            let c2 = CursorModel { at: c.at + 1, ..c };
            lemma_scope_shape(fuel, tokens, syntax, params, args_con.nodes@, c2);
        },
        _ => {},
    }
}

/// Parsing a structure named by the syntax keeps the shape of the state.
pub proof fn lemma_struct_shape(
    fuel: nat,
    tokens: Seq<TokenModel>,
    syntax: Tree,
    params: Seq<(String, String)>,
    nodes: Seq<ast_parser::NodeType>,
    ident: Seq<char>,
    node: ast_parser::Node,
    recoverable: bool,
    c: CursorModel,
)
    ensures
        struct_flow(fuel, tokens, syntax, params, nodes, ident, node, recoverable, c) matches Some(
            f,
        ) ==> flow_keeps_shape(c.state, f),
    decreases fuel, 1nat,
{
    if fuel > 0 {
        let args = node.arguments.entries@;
        lemma_walk_node_shape((fuel - 1) as nat, tokens, syntax, args, c.state.idx, ident);
        if let Some((Ok(nd), idx)) = walk_node(
            (fuel - 1) as nat,
            tokens,
            syntax,
            args,
            c.state.idx,
            ident,
        ) {
            let c1 = with_idx(c, idx);
            lemma_scope_shape(fuel, tokens, syntax, params, node.nodes@, c1);
            if let Some(FlowModel::Next(c2)) = scope_flow(
                fuel,
                tokens,
                syntax,
                params,
                node.nodes@,
                c1,
            ) {
                lemma_args_shape(tokens, node.arguments, node.kind@, Some(nd), c2);
            }
        }
    }
}

/// Walking an inner list of nodes keeps the shape of the state.
pub proof fn lemma_scope_shape(
    fuel: nat,
    tokens: Seq<TokenModel>,
    syntax: Tree,
    params: Seq<(String, String)>,
    inner: Seq<ast_parser::NodeType>,
    c: CursorModel,
)
    ensures
        scope_flow(fuel, tokens, syntax, params, inner, c) matches Some(f) ==> flow_keeps_shape(
            c.state,
            f,
        ),
    decreases fuel, 0nat,
{
    if fuel > 0 {
        let start = CursorModel { at: 0, advance_node: true, advance_tok: true, state: c.state };
        lemma_walk_scope_shape((fuel - 1) as nat, tokens, syntax, params, inner, start);
    }
}

} // verus!

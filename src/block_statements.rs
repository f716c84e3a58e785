//! Single statements in control-flow bodies that should be block statements.
use vstd::prelude::*;
use vstd::string::*;

use crate::diagnostic::RuleDiagnostic;
use crate::text_range::TextRange;

verus! {

/// The kinds of trivia piece: text around tokens that carries no syntax.
#[derive(Clone, Copy, Debug, PartialEq, Eq, Structural)]
pub enum TriviaPieceKind {
    Newline,
    Whitespace,
    SingleLineComment,
    MultiLineComment,
    Skipped,
}

/// One piece of trivia: its kind and its text.
#[derive(Debug)]
pub struct TriviaPiece {
    pub kind: TriviaPieceKind,
    pub text: String,
}

/// A trivia piece as values.
pub type PieceView = (TriviaPieceKind, Seq<char>);

impl View for TriviaPiece {
    type V = PieceView;

    open spec fn view(&self) -> PieceView {
        (self.kind, self.text@)
    }
}

/// The pieces of `v` as values.
pub open spec fn pieces_view(v: Seq<TriviaPiece>) -> Seq<PieceView> {
    v.map_values(|p: TriviaPiece| p@)
}

impl TriviaPiece {
    pub fn is_newline(&self) -> (r: bool)
        ensures
            r == (self.kind == TriviaPieceKind::Newline),
    {
        self.kind == TriviaPieceKind::Newline
    }

    pub fn is_whitespace(&self) -> (r: bool)
        ensures
            r == (self.kind == TriviaPieceKind::Whitespace),
    {
        self.kind == TriviaPieceKind::Whitespace
    }

    /// A copy of this piece.
    pub fn duplicate(&self) -> (r: TriviaPiece)
        ensures
            r@ == self@,
    {
        TriviaPiece { kind: self.kind, text: self.text.clone() }
    }

    /// A single space.
    pub fn space() -> (r: TriviaPiece)
        ensures
            r@ == (TriviaPieceKind::Whitespace, seq![' ']),
    {
        proof {
            reveal_strlit(" ");
        }
        let text = String::from_str(" ");
        assert(text@ =~= seq![' ']);
        TriviaPiece { kind: TriviaPieceKind::Whitespace, text }
    }

    /// A line feed.
    pub fn newline() -> (r: TriviaPiece)
        ensures
            r@ == (TriviaPieceKind::Newline, seq!['\n']),
    {
        proof {
            reveal_strlit("\n");
        }
        let text = String::from_str("\n");
        assert(text@ =~= seq!['\n']);
        TriviaPiece { kind: TriviaPieceKind::Newline, text }
    }
}

/// A copy of the pieces `v`.
pub fn copy_pieces(v: &Vec<TriviaPiece>) -> (r: Vec<TriviaPiece>)
    ensures
        pieces_view(r@) == pieces_view(v@),
{
    let mut r: Vec<TriviaPiece> = Vec::new();
    let mut i: usize = 0;
    while i < v.len()
        invariant
            i <= v@.len(),
            r@.len() == i,
            pieces_view(r@) == pieces_view(v@).subrange(0, i as int),
        decreases v.len() - i,
    {
        let ghost before = r@;
        r.push(v[i].duplicate());
        assert(r@ == before.push(r@[i as int]));
        assert(pieces_view(r@) =~= pieces_view(before).push(v@[i as int]@));
        i += 1;
        assert(pieces_view(r@) =~= pieces_view(v@).subrange(0, i as int));
    }
    assert(pieces_view(v@).subrange(0, i as int) =~= pieces_view(v@));
    r
}

/// The whitespace and newline pieces of `t` read backwards from its end, up to and
/// including the first newline met; other pieces are passed over. The result is in
/// reverse order.
pub open spec fn collected(t: Seq<PieceView>) -> Seq<PieceView>
    decreases t.len(),
{
    if t.len() == 0 {
        seq![]
    } else if t.last().0 == TriviaPieceKind::Newline {
        seq![t.last()]
    } else if t.last().0 == TriviaPieceKind::Whitespace {
        seq![t.last()] + collected(t.drop_last())
    } else {
        collected(t.drop_last())
    }
}

/// Collects the trivia pieces of `trivia` from its end up to the first newline: see
/// [`collected`].
pub fn collect_to_first_newline(trivia: &Vec<TriviaPiece>) -> (r: Vec<TriviaPiece>)
    ensures
        pieces_view(r@) == collected(pieces_view(trivia@)),
{
    let ghost t = pieces_view(trivia@);
    let mut out: Vec<TriviaPiece> = Vec::new();
    let mut i: usize = trivia.len();
    assert(t.subrange(0, i as int) =~= t);
    assert(pieces_view(out@) + t =~= t);
    while i > 0
        invariant
            t == pieces_view(trivia@),
            i <= t.len(),
            collected(t) == pieces_view(out@) + collected(t.subrange(0, i as int)),
        decreases i,
    {
        i -= 1;
        let ghost sub = t.subrange(0, i + 1);
        assert(sub.drop_last() =~= t.subrange(0, i as int));
        assert(sub.last() == trivia@[i as int]@);
        let piece = &trivia[i];
        if piece.is_newline() {
            out.push(piece.duplicate());
            assert(pieces_view(out@) =~= collected(t));
            return out;
        } else if piece.is_whitespace() {
            let ghost before = pieces_view(out@);
            out.push(piece.duplicate());
            assert(pieces_view(out@) =~= before + seq![sub.last()]);
            assert(before + collected(sub) =~= pieces_view(out@) + collected(t.subrange(0, i as int)));
        }
    }
    assert(pieces_view(out@) + seq![] =~= pieces_view(out@));
    out
}

/// Whether a whitespace piece of `t` comes after its last newline.
pub open spec fn has_space_after_last_newline(t: Seq<PieceView>) -> bool
    decreases t.len(),
{
    if t.len() == 0 {
        false
    } else if t.last().0 == TriviaPieceKind::Newline {
        false
    } else if t.last().0 == TriviaPieceKind::Whitespace {
        true
    } else {
        has_space_after_last_newline(t.drop_last())
    }
}

fn space_after_last_newline(trivia: &Vec<TriviaPiece>) -> (r: bool)
    ensures
        r == has_space_after_last_newline(pieces_view(trivia@)),
{
    let ghost t = pieces_view(trivia@);
    let mut i: usize = trivia.len();
    assert(t.subrange(0, i as int) =~= t);
    while i > 0
        invariant
            t == pieces_view(trivia@),
            i <= t.len(),
            has_space_after_last_newline(t) == has_space_after_last_newline(t.subrange(0, i as int)),
        decreases i,
    {
        i -= 1;
        let ghost sub = t.subrange(0, i + 1);
        assert(sub.drop_last() =~= t.subrange(0, i as int));
        assert(sub.last() == trivia@[i as int]@);
        if trivia[i].is_newline() {
            return false;
        } else if trivia[i].is_whitespace() {
            return true;
        }
    }
    false
}

/// Whether `t` holds a single-line comment.
pub open spec fn has_line_comment(t: Seq<PieceView>) -> bool {
    exists|i: int| 0 <= i < t.len() && (#[trigger] t[i]).0 == TriviaPieceKind::SingleLineComment
}

fn line_comment_in(trivia: &Vec<TriviaPiece>) -> (r: bool)
    ensures
        r == has_line_comment(pieces_view(trivia@)),
{
    let ghost t = pieces_view(trivia@);
    let mut i: usize = 0;
    while i < trivia.len()
        invariant
            t == pieces_view(trivia@),
            i <= t.len(),
            forall|j: int| 0 <= j < i ==> (#[trigger] t[j]).0 != TriviaPieceKind::SingleLineComment,
        decreases trivia.len() - i,
    {
        if trivia[i].kind == TriviaPieceKind::SingleLineComment {
            assert(t[i as int].0 == TriviaPieceKind::SingleLineComment);
            return true;
        }
        i += 1;
    }
    false
}

/// Whether `t` holds a newline.
pub open spec fn has_newline(t: Seq<PieceView>) -> bool {
    exists|i: int| 0 <= i < t.len() && (#[trigger] t[i]).0 == TriviaPieceKind::Newline
}

fn newline_in(trivia: &Vec<TriviaPiece>) -> (r: bool)
    ensures
        r == has_newline(pieces_view(trivia@)),
{
    let ghost t = pieces_view(trivia@);
    let mut i: usize = 0;
    while i < trivia.len()
        invariant
            t == pieces_view(trivia@),
            i <= t.len(),
            forall|j: int| 0 <= j < i ==> (#[trigger] t[j]).0 != TriviaPieceKind::Newline,
        decreases trivia.len() - i,
    {
        if trivia[i].is_newline() {
            assert(t[i as int].0 == TriviaPieceKind::Newline);
            return true;
        }
        i += 1;
    }
    false
}

/// The text of the pieces `t`, in order.
pub open spec fn render(t: Seq<PieceView>) -> Seq<char>
    decreases t.len(),
{
    if t.len() == 0 {
        seq![]
    } else {
        render(t.drop_last()) + t.last().1
    }
}

fn append_pieces(out: &mut String, pieces: &Vec<TriviaPiece>)
    ensures
        final(out)@ == old(out)@ + render(pieces_view(pieces@)),
{
    let ghost t = pieces_view(pieces@);
    let mut i: usize = 0;
    assert(old(out)@ + render(t.subrange(0, 0)) =~= old(out)@);
    while i < pieces.len()
        invariant
            t == pieces_view(pieces@),
            i <= t.len(),
            out@ == old(out)@ + render(t.subrange(0, i as int)),
        decreases pieces.len() - i,
    {
        out.append(pieces[i].text.as_str());
        assert(t.subrange(0, i + 1).drop_last() =~= t.subrange(0, i as int));
        i += 1;
        assert(out@ =~= old(out)@ + render(t.subrange(0, i as int)));
    }
    assert(t.subrange(0, i as int) =~= t);
}

/// The control-flow constructs whose body the rule checks.
#[derive(Clone, Copy, Debug, PartialEq, Eq, Structural)]
pub enum AnyJsBlockStatement {
    JsIfStatement,
    JsElseClause,
    JsDoWhileStatement,
    JsForInStatement,
    JsForOfStatement,
    JsForStatement,
    JsWhileStatement,
    JsWithStatement,
}

/// The kinds of statement that the rule tells apart.
#[derive(Clone, Copy, Debug, PartialEq, Eq, Structural)]
pub enum StatementKind {
    JsBlockStatement,
    JsEmptyStatement,
    JsIfStatement,
    Other,
}

/// A statement: its kind, the leading trivia of its first token, its text without
/// that trivia, and the trailing trivia of its last token.
#[derive(Debug)]
pub struct AnyJsStatement {
    pub kind: StatementKind,
    pub leading_trivia: Vec<TriviaPiece>,
    pub text: String,
    pub trailing_trivia: Vec<TriviaPiece>,
}

/// A statement as values.
pub type StatementView = (StatementKind, Seq<PieceView>, Seq<char>, Seq<PieceView>);

impl View for AnyJsStatement {
    type V = StatementView;

    open spec fn view(&self) -> StatementView {
        (self.kind, pieces_view(self.leading_trivia@), self.text@, pieces_view(self.trailing_trivia@))
    }
}

/// What the fix does to a body.
#[derive(Debug)]
pub enum UseBlockStatementsOperationType {
    /// Wraps the statement in a block.
    Wrap(AnyJsStatement),
    /// Replaces the empty statement by an empty block.
    ReplaceBody,
}

/// Whether the body of `node` is a statement of kind `body` that is not acceptable
/// as it stands: it is not a block, nor, after `else`, an `if`.
pub open spec fn needs_block(node: AnyJsBlockStatement, body: StatementKind) -> bool {
    &&& body != StatementKind::JsBlockStatement
    &&& !(node == AnyJsBlockStatement::JsElseClause && body == StatementKind::JsIfStatement)
}

/// Enforces block statements as the bodies of control-flow constructs.
pub struct UseBlockStatements;

/// A statement of the chain of enclosing block-statement constructs, innermost first.
#[derive(Debug)]
pub struct BlockAncestor {
    pub kind: AnyJsBlockStatement,
    pub leading_trivia: Vec<TriviaPiece>,
}

/// An enclosing construct as values.
pub type AncestorView = (AnyJsBlockStatement, Seq<PieceView>);

pub open spec fn ancestors_view(v: Seq<BlockAncestor>) -> Seq<AncestorView> {
    v.map_values(|a: BlockAncestor| (a.kind, pieces_view(a.leading_trivia@)))
}

/// The number of `else` clauses at the start of `chain`.
pub open spec fn else_run(chain: Seq<AncestorView>, i: int) -> int
    decreases chain.len() - i,
{
    if 0 <= i < chain.len() && chain[i].0 == AnyJsBlockStatement::JsElseClause {
        else_run(chain, i + 1)
    } else {
        i
    }
}

/// The leading trivia of the construct whose indentation the closing brace takes:
/// the node's own, or, where the node ends an `else if` chain, that of the outermost
/// `else` clause of the chain.
pub open spec fn reference_leading(node_leading: Seq<PieceView>, chain: Seq<AncestorView>) -> Seq<
    PieceView,
> {
    let k = else_run(chain, 0);
    if k <= 0 {
        node_leading
    } else {
        chain[k - 1].1
    }
}

/// The trivia of the braces that wrap a statement with leading trivia `lead` and
/// trailing trivia `trail`, after a token with trailing trivia `prev`: the leading
/// and trailing trivia of `{`, then the leading trivia of `}`. On a single line `}`
/// gets one space, or a newline after a line comment; where the statement starts on
/// a new line, `}` takes the indentation of the `reference` construct.
pub open spec fn wrap_braces(
    prev: Option<Seq<PieceView>>,
    lead: Seq<PieceView>,
    trail: Seq<PieceView>,
    reference: Seq<PieceView>,
) -> (Seq<PieceView>, Seq<PieceView>, Seq<PieceView>) {
    let space = (TriviaPieceKind::Whitespace, seq![' ']);
    let l_lead = match prev {
        Some(p) => if has_space_after_last_newline(p) { seq![] } else { seq![space] },
        None => seq![space],
    };
    let first = collected(lead);
    let l_trail = if first.len() == 0 { seq![space] } else { seq![] };
    let source = if has_newline(first) { collected(reference) } else { seq![] };
    let r_lead = if source.len() > 0 {
        source.reverse()
    } else if has_line_comment(trail) {
        seq![(TriviaPieceKind::Newline, seq!['\n'])]
    } else {
        seq![space]
    };
    (l_lead, l_trail, r_lead)
}

/// The block that replaces a body: for a wrap, `{` + the statement with its own
/// trivia + `}`, the braces' trivia from [`wrap_braces`], the leading trivia of `{`
/// becoming the block's; for an empty body, `{}` after one space.
pub open spec fn replacement(
    op: UseBlockStatementsOperationType,
    prev: Option<Seq<PieceView>>,
    node_leading: Seq<PieceView>,
    chain: Seq<AncestorView>,
) -> StatementView {
    match op {
        UseBlockStatementsOperationType::Wrap(stmt) => {
            let (kind, lead, text, trail) = stmt@;
            let (l_lead, l_trail, r_lead) = wrap_braces(
                prev,
                lead,
                trail,
                reference_leading(node_leading, chain),
            );
            (
                StatementKind::JsBlockStatement,
                l_lead,
                seq!['{'] + render(l_trail) + render(lead) + text + render(trail) + render(r_lead)
                    + seq!['}'],
                seq![],
            )
        },
        UseBlockStatementsOperationType::ReplaceBody => (
            StatementKind::JsBlockStatement,
            seq![(TriviaPieceKind::Whitespace, seq![' '])],
            seq!['{', '}'],
            seq![],
        ),
    }
}

/// After a fix the body is a block, so checking the construct again finds nothing.
pub proof fn lemma_fixed_body_needs_no_block(
    node: AnyJsBlockStatement,
    op: UseBlockStatementsOperationType,
    prev: Option<Seq<PieceView>>,
    node_leading: Seq<PieceView>,
    chain: Seq<AncestorView>,
)
    ensures
        replacement(op, prev, node_leading, chain).0 == StatementKind::JsBlockStatement,
        !needs_block(node, replacement(op, prev, node_leading, chain).0),
{
}

fn reverse_pieces(v: Vec<TriviaPiece>) -> (r: Vec<TriviaPiece>)
    ensures
        pieces_view(r@) == pieces_view(v@).reverse(),
{
    let ghost t = pieces_view(v@);
    let mut r: Vec<TriviaPiece> = Vec::new();
    let mut i: usize = v.len();
    while i > 0
        invariant
            t == pieces_view(v@),
            i <= t.len(),
            r@.len() == t.len() - i,
            pieces_view(r@) == t.subrange(i as int, t.len() as int).reverse(),
        decreases i,
    {
        i -= 1;
        let ghost before = r@;
        r.push(v[i].duplicate());
        assert(r@ == before.push(r@[before.len() as int]));
        let ghost prev_rev = t.subrange(i + 1, t.len() as int).reverse();
        let ghost rev = t.subrange(i as int, t.len() as int).reverse();
        assert(rev.len() == prev_rev.len() + 1);
        assert forall|k: int| 0 <= k < prev_rev.len() implies rev[k] == prev_rev[k] by {}
        assert(rev[prev_rev.len() as int] == t[i as int]);
        assert(pieces_view(r@) =~= rev);
    }
    assert(t.subrange(0, t.len() as int) =~= t);
    r
}

impl UseBlockStatements {
    /// The report for the construct at `node_range`.
    pub fn diagnostic(node_range: TextRange) -> (r: RuleDiagnostic)
        ensures
            r.range == node_range,
            r.message@ == "Block statements are preferred in this position."@,
            r.detail is None,
            r.note is None,
    {
        RuleDiagnostic {
            range: node_range,
            message: String::from_str("Block statements are preferred in this position."),
            detail: None,
            note: None,
        }
    }

    /// The description of every fix of this rule.
    pub fn action_message() -> (r: String)
        ensures
            r@ == "Wrap the statement with a `JsBlockStatement`"@,
    {
        String::from_str("Wrap the statement with a `JsBlockStatement`")
    }

    /// What to do with the body `body` of the construct `node`: nothing where it is
    /// acceptable, a new empty block where it is an empty statement, else a wrap.
    pub fn run(node: AnyJsBlockStatement, body: AnyJsStatement) -> (r: Option<
        UseBlockStatementsOperationType,
    >)
        ensures
            !needs_block(node, body.kind) ==> r is None,
            needs_block(node, body.kind) && body.kind == StatementKind::JsEmptyStatement ==> r
                == Some(UseBlockStatementsOperationType::ReplaceBody),
            needs_block(node, body.kind) && body.kind != StatementKind::JsEmptyStatement ==> r
                == Some(UseBlockStatementsOperationType::Wrap(body)),
    {
        if body.kind == StatementKind::JsEmptyStatement {
            return Some(UseBlockStatementsOperationType::ReplaceBody);
        }
        let is_block = match node {
            AnyJsBlockStatement::JsElseClause => body.kind == StatementKind::JsBlockStatement
                || body.kind == StatementKind::JsIfStatement,
            _ => body.kind == StatementKind::JsBlockStatement,
        };
        if !is_block {
            return Some(UseBlockStatementsOperationType::Wrap(body));
        }
        None
    }

    /// The block that replaces the body for the operation `op`. `previous_trailing`
    /// is the trailing trivia of the token before the body, if there is one;
    /// `node_leading` the leading trivia of the checked construct, and `parents` the
    /// chain of block-statement constructs around it, innermost first.
    pub fn action(
        op: &UseBlockStatementsOperationType,
        previous_trailing: Option<&Vec<TriviaPiece>>,
        node_leading: &Vec<TriviaPiece>,
        parents: &Vec<BlockAncestor>,
    ) -> (r: AnyJsStatement)
        ensures
            r@ == replacement(
                *op,
                match previous_trailing {
                    Some(p) => Some(pieces_view(p@)),
                    None => None,
                },
                pieces_view(node_leading@),
                ancestors_view(parents@),
            ),
    {
        match op {
            UseBlockStatementsOperationType::Wrap(stmt) => {
                let mut l_curly_leading: Vec<TriviaPiece> = Vec::new();
                let has_previous_space = match previous_trailing {
                    Some(p) => space_after_last_newline(p),
                    None => false,
                };
                if !has_previous_space {
                    l_curly_leading.push(TriviaPiece::space());
                }
                let mut l_curly_trailing: Vec<TriviaPiece> = Vec::new();
                let leading_trivia = collect_to_first_newline(&stmt.leading_trivia);
                if leading_trivia.len() == 0 {
                    l_curly_trailing.push(TriviaPiece::space());
                }
                let mut reference_trivia: Vec<TriviaPiece> = Vec::new();
                if newline_in(&leading_trivia) {
                    let ghost chain = ancestors_view(parents@);
                    let mut k: usize = 0;
                    while k < parents.len() && parents[k].kind == AnyJsBlockStatement::JsElseClause
                        invariant
                            chain == ancestors_view(parents@),
                            k <= parents@.len(),
                            else_run(chain, 0) == else_run(chain, k as int),
                        decreases parents.len() - k,
                    {
                        k += 1;
                    }
                    reference_trivia = if k == 0 {
                        collect_to_first_newline(node_leading)
                    } else {
                        collect_to_first_newline(&parents[k - 1].leading_trivia)
                    };
                }
                let r_curly_leading = if reference_trivia.len() > 0 {
                    reverse_pieces(reference_trivia)
                } else {
                    let mut r: Vec<TriviaPiece> = Vec::new();
                    if line_comment_in(&stmt.trailing_trivia) {
                        r.push(TriviaPiece::newline());
                    } else {
                        r.push(TriviaPiece::space());
                    }
                    r
                };
                proof {
                    reveal_strlit("{");
                    reveal_strlit("}");
                }
                let mut text = String::from_str("{");
                append_pieces(&mut text, &l_curly_trailing);
                append_pieces(&mut text, &stmt.leading_trivia);
                text.append(stmt.text.as_str());
                append_pieces(&mut text, &stmt.trailing_trivia);
                append_pieces(&mut text, &r_curly_leading);
                text.append("}");
                let ghost braces = wrap_braces(
                    match previous_trailing {
                        Some(p) => Some(pieces_view(p@)),
                        None => None,
                    },
                    pieces_view(stmt.leading_trivia@),
                    pieces_view(stmt.trailing_trivia@),
                    reference_leading(pieces_view(node_leading@), ancestors_view(parents@)),
                );
                assert(pieces_view(l_curly_leading@) =~= braces.0);
                assert(pieces_view(l_curly_trailing@) =~= braces.1);
                assert(pieces_view(r_curly_leading@) =~= braces.2);
                let r = AnyJsStatement {
                    kind: StatementKind::JsBlockStatement,
                    leading_trivia: l_curly_leading,
                    text,
                    trailing_trivia: Vec::new(),
                };
                assert(pieces_view(r.trailing_trivia@) =~= seq![]);
                r
            },
            UseBlockStatementsOperationType::ReplaceBody => {
                let mut leading_trivia: Vec<TriviaPiece> = Vec::new();
                leading_trivia.push(TriviaPiece::space());
                proof {
                    reveal_strlit("{}");
                }
                let text = String::from_str("{}");
                assert(text@ =~= seq!['{', '}']);
                let r = AnyJsStatement {
                    kind: StatementKind::JsBlockStatement,
                    leading_trivia,
                    text,
                    trailing_trivia: Vec::new(),
                };
                assert(pieces_view(r.trailing_trivia@) =~= seq![]);
                assert(pieces_view(r.leading_trivia@) =~= seq![(TriviaPieceKind::Whitespace, seq![' '])]);
                r
            },
        }
    }
}

} // verus!

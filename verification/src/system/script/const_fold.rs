//! Folding of literal arguments of chosen host functions into integer handles, token by token.
//!
//! A set of host function names is eligible. Where a script calls one of them with a literal
//! string, as in `load_config("path")`, the string token is replaced by an integer: the handle
//! under which the literal was recorded. A call with a variable or an expression is left alone, so
//! folding is an optimisation and never required. Whether a literal is the whole argument shows in
//! the token behind it, so the tokens of a script are gone through as a list.
//!
//! A token that breaks the sequence name, left parenthesis, string puts the mapper back to its
//! start. Handles are never reused: a literal that occurs twice gets two of them.
use vstd::prelude::*;

use crate::dict::Dict;
use crate::text;

verus! {

/// The literals recorded for one eligible function; a handle is a position in the list.
struct FoldedFn {
    entries: Vec<String>,
}

impl FoldedFn {
    /// Records one more literal and hands out its handle.
    fn allocate(&mut self, literal: String) -> (id: i64)
        ensures
            id == old(self).entries@.len() as i64,
            final(self).entries@ == old(self).entries@.push(literal),
    {
        let id: i64 = self.entries.len() as i64;
        self.entries.push(literal);
        id
    }
}

/// The literals recorded for every eligible function.
pub struct ConstFoldRegistry {
    fns: Dict<FoldedFn>,
}

/// The literals of every eligible function, by function name.
pub type FoldTable = Map<Seq<char>, Seq<Seq<char>>>;

impl View for ConstFoldRegistry {
    type V = FoldTable;

    closed spec fn view(&self) -> FoldTable {
        self.fns@.map_values(|f: FoldedFn| text::texts(f.entries@))
    }
}

/// The table with `name` eligible.
pub open spec fn with_eligible(table: FoldTable, name: Seq<char>) -> FoldTable {
    if table.contains_key(name) {
        table
    } else {
        table.insert(name, Seq::empty())
    }
}

/// The literal that `name` recorded under `id`.
pub open spec fn literal_at(table: FoldTable, name: Seq<char>, id: i64) -> Option<Seq<char>> {
    if table.contains_key(name) && 0 <= id < table[name].len() {
        Some(table[name][id as int])
    } else {
        None
    }
}

impl ConstFoldRegistry {
    /// A registry with no eligible function.
    #[must_use]
    pub fn new() -> (registry: Self)
        ensures
            registry@ == Map::<Seq<char>, Seq<Seq<char>>>::empty(),
    {
        let registry = ConstFoldRegistry { fns: Dict::new() };
        assert(registry@ =~= Map::<Seq<char>, Seq<Seq<char>>>::empty());
        registry
    }

    /// Makes `name` eligible. Doing so again changes nothing.
    pub fn register(&mut self, name: &str)
        ensures
            final(self)@ == with_eligible(old(self)@, name@),
    {
        if !self.fns.contains_key(name) {
            let folded = FoldedFn { entries: Vec::new() };
            self.fns.insert(name.to_owned(), folded);
            assert(text::texts(folded.entries@) =~= Seq::<Seq<char>>::empty());
            assert(self@ =~= with_eligible(old(self)@, name@));
        }
    }

    /// Whether `name` is eligible.
    #[must_use]
    pub fn is_eligible(&self, name: &str) -> (eligible: bool)
        ensures
            eligible == self@.contains_key(name@),
    {
        self.fns.contains_key(name)
    }

    /// Records `literal` for `fn_name` under a new handle, if the function is eligible.
    pub fn allocate(&mut self, fn_name: &str, literal: String) -> (id: Option<i64>)
        ensures
            match id {
                Some(n) => old(self)@.contains_key(fn_name@) && n == old(self)@[fn_name@].len()
                    as i64 && final(self)@ == old(self)@.insert(
                    fn_name@,
                    old(self)@[fn_name@].push(literal@),
                ),
                None => !old(self)@.contains_key(fn_name@) && final(self)@ == old(self)@,
            },
    {
        match self.fns.remove(fn_name) {
            Some(folded) => {
                let mut folded = folded;
                let ghost before = folded.entries@;
                let id: i64 = folded.allocate(literal);
                self.fns.insert(fn_name.to_owned(), folded);
                proof {
                    assert(text::texts(folded.entries@) =~= text::texts(before).push(literal@));
                    assert(self@ =~= old(self)@.insert(
                        fn_name@,
                        old(self)@[fn_name@].push(literal@),
                    ));
                }
                Some(id)
            },
            None => {
                assert(self@ =~= old(self)@);
                None
            },
        }
    }

    /// The literal recorded for `fn_name` under `id`.
    #[must_use]
    pub fn lookup(&self, fn_name: &str, id: i64) -> (literal: Option<&str>)
        ensures
            match literal {
                Some(s) => literal_at(self@, fn_name@, id) == Some(s@),
                None => literal_at(self@, fn_name@, id) is None,
            },
    {
        match self.fns.get(fn_name) {
            Some(folded) => {
                if id >= 0 && (id as u64) < folded.entries.len() as u64 {
                    Some(folded.entries[id as usize].as_str())
                } else {
                    None
                }
            },
            None => None,
        }
    }
}

/// A token of a script, as far as folding tells tokens apart.
#[derive(Debug, Clone, PartialEq, Eq)]
pub enum Token {
    Identifier(String),
    LeftParen,
    RightParen,
    Comma,
    StringConstant(String),
    IntegerConstant(i64),
    Other,
}

/// The content of a [`Token`].
pub enum TokenText {
    Identifier(Seq<char>),
    LeftParen,
    RightParen,
    Comma,
    StringConstant(Seq<char>),
    IntegerConstant(i64),
    Other,
}

impl View for Token {
    type V = TokenText;

    open spec fn view(&self) -> TokenText {
        match self {
            Token::Identifier(name) => TokenText::Identifier(name@),
            Token::LeftParen => TokenText::LeftParen,
            Token::RightParen => TokenText::RightParen,
            Token::Comma => TokenText::Comma,
            Token::StringConstant(s) => TokenText::StringConstant(s@),
            Token::IntegerConstant(n) => TokenText::IntegerConstant(*n),
            Token::Other => TokenText::Other,
        }
    }
}

/// How much of the sequence name, left parenthesis, string has been seen.
#[derive(Debug, Clone, Copy, PartialEq, Eq, Structural)]
pub enum Stage {
    /// Nothing yet.
    Idle,
    /// The last token was an eligible name.
    SeenIdent,
    /// The last two tokens were an eligible name and a left parenthesis.
    SeenParen,
}

/// The token mapper of one compilation: where it is in the sequence, and the function whose call
/// it is in.
pub struct TokenMapper {
    stage: Stage,
    pending_fn: String,
}

/// The state of a [`TokenMapper`].
pub struct MapperState {
    pub stage: Stage,
    pub pending: Seq<char>,
}

impl View for TokenMapper {
    type V = MapperState;

    closed spec fn view(&self) -> MapperState {
        MapperState { stage: self.stage, pending: self.pending_fn@ }
    }
}

/// Whether an argument is over where `next` follows.
pub open spec fn closes(next: Option<TokenText>) -> bool {
    next == Some(TokenText::RightParen) || next == Some(TokenText::Comma)
}

/// One step of the mapper, which sees the token behind as well: the next state, the table after
/// it, and the token handed on.
pub open spec fn mapper_step(
    state: MapperState,
    table: FoldTable,
    token: TokenText,
    next: Option<TokenText>,
) -> (MapperState, FoldTable, TokenText) {
    match (state.stage, token) {
        (Stage::Idle, TokenText::Identifier(name)) => if table.contains_key(name) {
            (MapperState { stage: Stage::SeenIdent, pending: name }, table, token)
        } else {
            (state, table, token)
        },
        (Stage::SeenIdent, TokenText::LeftParen) => (
            MapperState { stage: Stage::SeenParen, ..state },
            table,
            token,
        ),
        (Stage::SeenParen, TokenText::StringConstant(s)) => {
            let idle = MapperState { stage: Stage::Idle, ..state };
            if closes(next) && table.contains_key(state.pending) {
                let seen = table[state.pending];
                (
                    idle,
                    table.insert(state.pending, seen.push(s)),
                    TokenText::IntegerConstant(seen.len() as i64),
                )
            } else {
                (idle, table, token)
            }
        },
        _ => (MapperState { stage: Stage::Idle, ..state }, table, token),
    }
}

/// The mapper at the start of a script.
pub fn build_token_mapper() -> (mapper: TokenMapper)
    ensures
        mapper@ == start_of_script(),
{
    let mapper = TokenMapper { stage: Stage::Idle, pending_fn: String::new() };
    assert(mapper.pending_fn@ =~= Seq::<char>::empty());
    mapper
}

/// The state of a mapper at the start of a script.
pub open spec fn start_of_script() -> MapperState {
    MapperState { stage: Stage::Idle, pending: Seq::empty() }
}

/// The tokens of a script.
pub open spec fn token_texts(tokens: Seq<Token>) -> Seq<TokenText> {
    tokens.map_values(|t: Token| t@)
}

/// What a mapper makes of the first `n` tokens of a script.
pub open spec fn mapped(table: FoldTable, tokens: Seq<TokenText>, n: nat) -> (
    MapperState,
    FoldTable,
    Seq<TokenText>,
)
    decreases n,
{
    if n == 0 {
        (start_of_script(), table, Seq::empty())
    } else {
        let (state, so_far, out) = mapped(table, tokens, (n - 1) as nat);
        let next = if n < tokens.len() {
            Some(tokens[n as int])
        } else {
            None
        };
        let (after, grown, token) = mapper_step(state, so_far, tokens[n - 1], next);
        (after, grown, out.push(token))
    }
}

fn is_closing(next: Option<&Token>) -> (yes: bool)
    ensures
        yes == closes(
            match next {
                Some(t) => Some(t@),
                None => None,
            },
        ),
{
    match next {
        Some(Token::RightParen) => true,
        Some(Token::Comma) => true,
        _ => false,
    }
}

impl TokenMapper {
    /// Takes the next token of the script, and a look at the one behind it, and gives the token to
    /// parse in its place.
    pub fn map(&mut self, registry: &mut ConstFoldRegistry, token: Token, next: Option<&Token>) -> (
        mapped: Token)
        ensures
            (final(self)@, final(registry)@, mapped@) == mapper_step(
                old(self)@,
                old(registry)@,
                token@,
                match next {
                    Some(t) => Some(t@),
                    None => None,
                },
            ),
    {
        match (self.stage, token) {
            (Stage::Idle, Token::Identifier(name)) => {
                if registry.is_eligible(name.as_str()) {
                    self.stage = Stage::SeenIdent;
                    self.pending_fn = name.clone();
                }
                Token::Identifier(name)
            },
            (Stage::SeenIdent, Token::LeftParen) => {
                self.stage = Stage::SeenParen;
                Token::LeftParen
            },
            (Stage::SeenParen, Token::StringConstant(s)) => {
                self.stage = Stage::Idle;
                if !is_closing(next) {
                    return Token::StringConstant(s);
                }
                match registry.allocate(self.pending_fn.as_str(), s.clone()) {
                    Some(id) => Token::IntegerConstant(id),
                    None => Token::StringConstant(s),
                }
            },
            (_, token) => {
                self.stage = Stage::Idle;
                token
            },
        }
    }
}

/// Goes through the tokens of a whole script: the tokens to parse in their place.
pub fn fold_tokens(registry: &mut ConstFoldRegistry, tokens: &Vec<Token>) -> (folded: Vec<Token>)
    ensures
        ({
            let (_, table, out) = mapped(old(registry)@, token_texts(tokens@), tokens@.len());
            final(registry)@ == table && token_texts(folded@) == out
        }),
{
    let ghost table = registry@;
    let ghost texts = token_texts(tokens@);
    let mut mapper = build_token_mapper();
    let mut folded: Vec<Token> = Vec::new();
    let mut i: usize = 0;
    assert(token_texts(folded@) =~= Seq::<TokenText>::empty());
    while i < tokens.len()
        invariant
            i <= tokens.len(),
            texts == token_texts(tokens@),
            (mapper@, registry@, token_texts(folded@)) == mapped(table, texts, i as nat),
        decreases tokens.len() - i,
    {
        let next = if i + 1 < tokens.len() {
            Some(&tokens[i + 1])
        } else {
            None
        };
        let ghost so_far = folded@;
        let token = copy_token(&tokens[i]);
        assert(token@ == texts[i as int]);
        assert(i + 1 < tokens.len() ==> tokens@[i + 1]@ == texts[i + 1]);
        let out = mapper.map(registry, token, next);
        folded.push(out);
        assert(token_texts(folded@) =~= token_texts(so_far).push(out@));
        i += 1;
    }
    folded
}

fn copy_token(token: &Token) -> (copy: Token)
    ensures
        copy@ == token@,
{
    match token {
        Token::Identifier(name) => Token::Identifier(name.clone()),
        Token::LeftParen => Token::LeftParen,
        Token::RightParen => Token::RightParen,
        Token::Comma => Token::Comma,
        Token::StringConstant(s) => Token::StringConstant(s.clone()),
        Token::IntegerConstant(n) => Token::IntegerConstant(*n),
        Token::Other => Token::Other,
    }
}

/// A new handle gives back the literal it was handed out for, and every older handle still gives
/// back its own.
pub proof fn handles_are_not_reused(
    table: FoldTable,
    name: Seq<char>,
    literal: Seq<char>,
    other: Seq<char>,
    id: i64,
)
    requires
        table.contains_key(name),
        table[name].len() <= i64::MAX,
    ensures
        ({
            let after = table.insert(name, table[name].push(literal));
            let new = table[name].len() as i64;
            &&& literal_at(after, name, new) == Some(literal)
            &&& literal_at(table, name, new) is None
            &&& literal_at(table, other, id) is Some ==> literal_at(after, other, id) == literal_at(
                table,
                other,
                id,
            )
        }),
{
}

/// Registering a name twice is the same as once, and keeps what was recorded.
pub proof fn register_is_idempotent(table: FoldTable, name: Seq<char>)
    ensures
        with_eligible(with_eligible(table, name), name) == with_eligible(table, name),
        table.contains_key(name) ==> with_eligible(table, name) == table,
{
}

/// A change to a registry.
pub enum FoldOp {
    /// A name is made eligible.
    Register(Seq<char>),
    /// A literal is recorded for a function.
    Allocate(Seq<char>, Seq<char>),
}

/// The table after a change.
pub open spec fn after_op(table: FoldTable, op: FoldOp) -> FoldTable {
    match op {
        FoldOp::Register(name) => with_eligible(table, name),
        FoldOp::Allocate(name, literal) => if table.contains_key(name) {
            table.insert(name, table[name].push(literal))
        } else {
            table
        },
    }
}

/// The table after a list of changes.
pub open spec fn after_ops(table: FoldTable, ops: Seq<FoldOp>) -> FoldTable
    decreases ops.len(),
{
    if ops.len() == 0 {
        table
    } else {
        after_op(after_ops(table, ops.drop_last()), ops.last())
    }
}

/// The literals that a list of changes records for `name`, in order.
pub open spec fn recorded(ops: Seq<FoldOp>, name: Seq<char>) -> Seq<Seq<char>>
    decreases ops.len(),
{
    if ops.len() == 0 {
        Seq::empty()
    } else {
        match ops.last() {
            FoldOp::Allocate(f, literal) => if f == name {
                recorded(ops.drop_last(), name).push(literal)
            } else {
                recorded(ops.drop_last(), name)
            },
            FoldOp::Register(_) => recorded(ops.drop_last(), name),
        }
    }
}

proof fn what_is_recorded(table: FoldTable, name: Seq<char>, ops: Seq<FoldOp>)
    requires
        table.contains_key(name),
    ensures
        after_ops(table, ops).contains_key(name),
        after_ops(table, ops)[name] == table[name] + recorded(ops, name),
    decreases ops.len(),
{
    if ops.len() == 0 {
        assert(table[name] + recorded(ops, name) =~= table[name]);
    } else {
        what_is_recorded(table, name, ops.drop_last());
        assert(after_ops(table, ops)[name] =~= table[name] + recorded(ops, name));
    }
}

/// The literals that are recorded for a function from its registration on, whatever else is
/// registered and recorded in between, get the handles 0, 1, 2 and so on, equal literals included:
/// after any such changes the next handle is the number of literals recorded so far. Each handle
/// gives its literal back, and no other integer gives anything.
pub proof fn handles_count_up(table: FoldTable, name: Seq<char>, ops: Seq<FoldOp>, id: i64)
    requires
        table.contains_key(name),
        table[name].len() == 0,
    ensures
        after_ops(table, ops).contains_key(name),
        recorded(ops, name).len() <= i64::MAX ==> after_ops(table, ops)[name].len() as i64
            == recorded(ops, name).len(),
        literal_at(after_ops(table, ops), name, id) == (if 0 <= id < recorded(ops, name).len() {
            Some(recorded(ops, name)[id as int])
        } else {
            None
        }),
{
    what_is_recorded(table, name, ops);
    assert(table[name] + recorded(ops, name) =~= recorded(ops, name));
}

/// A function that is never registered has no handles.
pub proof fn unregistered_functions_have_no_handles(
    table: FoldTable,
    name: Seq<char>,
    ops: Seq<FoldOp>,
    id: i64,
)
    requires
        !table.contains_key(name),
        forall|i: int| 0 <= i < ops.len() ==> #[trigger] ops[i] != FoldOp::Register(name),
    ensures
        !after_ops(table, ops).contains_key(name),
        literal_at(after_ops(table, ops), name, id) is None,
    decreases ops.len(),
{
    if ops.len() > 0 {
        assert(ops.last() == ops[ops.len() - 1]);
        assert forall|i: int| 0 <= i < ops.drop_last().len() implies #[trigger] ops.drop_last()[i]
            != FoldOp::Register(name) by {
            assert(ops.drop_last()[i] == ops[i]);
        }
        unregistered_functions_have_no_handles(table, name, ops.drop_last(), id);
    }
}

proof fn where_the_mapper_is(table: FoldTable, tokens: Seq<TokenText>, n: nat)
    requires
        n <= tokens.len(),
    ensures
        ({
            let (state, now, out) = mapped(table, tokens, n);
            &&& out.len() == n
            &&& now.dom() == table.dom()
            &&& state.stage == Stage::SeenIdent ==> n >= 1 && tokens[n - 1]
                == TokenText::Identifier(state.pending) && table.contains_key(state.pending)
            &&& state.stage == Stage::SeenParen ==> n >= 2 && tokens[n - 1] is LeftParen
                && tokens[n - 2] == TokenText::Identifier(state.pending) && table.contains_key(
                state.pending,
            )
        }),
    decreases n,
{
    if n > 0 {
        where_the_mapper_is(table, tokens, (n - 1) as nat);
        let (state, so_far, out) = mapped(table, tokens, (n - 1) as nat);
        assert(mapped(table, tokens, n).1.dom() =~= table.dom());
    }
}

/// A token is only ever replaced when it is the whole argument of a call: a literal string behind
/// an eligible name and a left parenthesis, with a comma or a right parenthesis behind it. So a
/// literal that is part of an expression stays.
pub proof fn only_literal_arguments_are_folded(
    table: FoldTable,
    tokens: Seq<TokenText>,
    n: nat,
    i: int,
)
    requires
        0 <= i < n <= tokens.len(),
    ensures
        mapped(table, tokens, n).2.len() == n,
        mapped(table, tokens, n).2[i] != tokens[i] ==> {
            &&& i >= 2
            &&& tokens[i - 2] matches TokenText::Identifier(name) && table.contains_key(name)
            &&& tokens[i - 1] is LeftParen
            &&& tokens[i] is StringConstant
            &&& i + 1 < tokens.len() && closes(Some(tokens[i + 1]))
        },
    decreases n,
{
    where_the_mapper_is(table, tokens, n);
    where_the_mapper_is(table, tokens, (n - 1) as nat);
    if i < n - 1 {
        only_literal_arguments_are_folded(table, tokens, (n - 1) as nat, i);
    }
}

/// A call of an eligible function with a literal is folded, and the handle gives the literal back.
pub proof fn literal_calls_are_folded(
    table: FoldTable,
    pending: Seq<char>,
    name: Seq<char>,
    s: Seq<char>,
    end: TokenText,
)
    requires
        table.contains_key(name),
        table[name].len() <= i64::MAX,
        closes(Some(end)),
    ensures
        ({
            let start = MapperState { stage: Stage::Idle, pending };
            let literal = TokenText::StringConstant(s);
            let first = mapper_step(
                start,
                table,
                TokenText::Identifier(name),
                Some(TokenText::LeftParen),
            );
            let second = mapper_step(first.0, first.1, TokenText::LeftParen, Some(literal));
            let third = mapper_step(second.0, second.1, literal, Some(end));
            &&& third.0.stage == Stage::Idle
            &&& third.2 matches TokenText::IntegerConstant(id) && literal_at(third.1, name, id)
                == Some(s)
        }),
{
}

proof fn tables_only_grow(table: FoldTable, tokens: Seq<TokenText>, n: nat, m: nat, name: Seq<char>)
    requires
        n <= m <= tokens.len(),
        table.contains_key(name),
    ensures
        ({
            let before = mapped(table, tokens, n);
            let after = mapped(table, tokens, m);
            &&& before.1.contains_key(name) && after.1.contains_key(name)
            &&& before.1[name].len() <= after.1[name].len() <= before.1[name].len() + (m - n)
            &&& forall|i: int|
                0 <= i < before.1[name].len() ==> #[trigger] after.1[name][i] == before.1[name][i]
            &&& after.2.len() == m
            &&& forall|i: int| 0 <= i < n ==> #[trigger] after.2[i] == before.2[i]
        }),
    decreases m,
{
    where_the_mapper_is(table, tokens, n);
    where_the_mapper_is(table, tokens, m);
    if n < m {
        tables_only_grow(table, tokens, n, (m - 1) as nat, name);
    }
}

/// In a whole script every call of an eligible function with a literal as its whole argument is
/// folded: the literal gives way to an integer under which the function has recorded it. The call
/// must not stand directly behind an eligible name, nor as the argument of an eligible function.
pub proof fn literal_calls_in_scripts_are_folded(
    table: FoldTable,
    tokens: Seq<TokenText>,
    i: int,
    name: Seq<char>,
    s: Seq<char>,
)
    requires
        2 <= i < tokens.len() - 1,
        table.contains_key(name),
        table[name].len() + tokens.len() <= i64::MAX,
        tokens[i - 2] == TokenText::Identifier(name),
        tokens[i - 1] == TokenText::LeftParen,
        tokens[i] == TokenText::StringConstant(s),
        tokens[i + 1] == TokenText::RightParen || tokens[i + 1] == TokenText::Comma,
        i >= 3 ==> !(tokens[i - 3] is Identifier) || !table.contains_key(
            tokens[i - 3]->Identifier_0,
        ),
        i >= 4 && tokens[i - 3] is LeftParen ==> !(tokens[i - 4] is Identifier)
            || !table.contains_key(tokens[i - 4]->Identifier_0),
    ensures
        ({
            let (_, after, out) = mapped(table, tokens, tokens.len());
            &&& out.len() == tokens.len()
            &&& out[i] matches TokenText::IntegerConstant(id) && literal_at(after, name, id)
                == Some(s)
            &&& out[i - 2] == tokens[i - 2] && out[i - 1] == tokens[i - 1]
        }),
{
    let a = (i - 2) as nat;
    where_the_mapper_is(table, tokens, a);
    let (state, so_far, out) = mapped(table, tokens, a);
    assert(state.stage == Stage::Idle);
    assert(so_far.contains_key(name));
    let first = mapped(table, tokens, (i - 1) as nat);
    assert(first.0 == (MapperState { stage: Stage::SeenIdent, pending: name }));
    assert(first.1 == so_far);
    let second = mapped(table, tokens, i as nat);
    assert(second.0 == (MapperState { stage: Stage::SeenParen, pending: name }));
    assert(second.1 == so_far);
    tables_only_grow(table, tokens, 0, i as nat, name);
    let third = mapped(table, tokens, (i + 1) as nat);
    let seen = so_far[name];
    assert(third.1 == so_far.insert(name, seen.push(s)));
    assert(third.2 == second.2.push(TokenText::IntegerConstant(seen.len() as i64)));
    tables_only_grow(table, tokens, (i + 1) as nat, tokens.len(), name);
    tables_only_grow(table, tokens, i as nat, (i + 1) as nat, name);
    let last = mapped(table, tokens, tokens.len());
    assert(third.2[i] == TokenText::IntegerConstant(seen.len() as i64));
    assert(last.1[name][seen.len() as int] == third.1[name][seen.len() as int]);
    only_literal_arguments_are_folded(table, tokens, tokens.len(), i - 2);
    only_literal_arguments_are_folded(table, tokens, tokens.len(), i - 1);
}

/// Tokens of a script that are no strings are handed on as they are, and so is a string that is
/// not followed by a comma or a right parenthesis.
pub proof fn other_tokens_are_handed_on(table: FoldTable, tokens: Seq<TokenText>, i: int)
    requires
        0 <= i < tokens.len(),
        !(tokens[i] is StringConstant) || i + 1 == tokens.len() || !(tokens[i + 1] is RightParen
            || tokens[i + 1] is Comma),
    ensures
        mapped(table, tokens, tokens.len()).2[i] == tokens[i],
{
    only_literal_arguments_are_folded(table, tokens, tokens.len(), i);
}

/// A literal that was recorded is found under its handle, whatever else is recorded after it for
/// the same function, and the two have different handles.
pub proof fn recorded_literals_are_found(
    r1: &mut ConstFoldRegistry,
    r2: &mut ConstFoldRegistry,
    after: &ConstFoldRegistry,
    name: &str,
    a: String,
    b: String,
    first: Option<i64>,
    second: Option<i64>,
    found: Option<&str>,
    next: Option<&str>,
)
    requires
        call_ensures(ConstFoldRegistry::allocate, (r1, name, a), first),
        final(r1)@ == old(r2)@,
        call_ensures(ConstFoldRegistry::allocate, (r2, name, b), second),
        first is Some,
        old(r1)@[name@].len() < i64::MAX,
        after@ == final(r2)@,
        second is Some,
        call_ensures(ConstFoldRegistry::lookup, (after, name, first->Some_0), found),
        call_ensures(ConstFoldRegistry::lookup, (after, name, second->Some_0), next),
    ensures
        first->Some_0 != second->Some_0,
        found is Some && found->Some_0@ == a@,
        next is Some && next->Some_0@ == b@,
{
}

/// A script keeps the number of its tokens. A literal that is the whole argument of a call of an
/// eligible function gives way to a number under which it is found for that function afterwards;
/// every other kind of token stays.
pub proof fn scripts_are_folded_token_by_token(
    registry: &mut ConstFoldRegistry,
    tokens: &Vec<Token>,
    folded: Vec<Token>,
    after: &ConstFoldRegistry,
    name: &str,
    i: int,
    s: Seq<char>,
    id: i64,
    found: Option<&str>,
)
    requires
        call_ensures(fold_tokens, (registry, tokens), folded),
        after@ == final(registry)@,
        2 <= i < tokens@.len() - 1,
        old(registry)@.contains_key(name@),
        old(registry)@[name@].len() + tokens@.len() <= i64::MAX,
        tokens@[i - 2]@ == TokenText::Identifier(name@),
        tokens@[i - 1]@ == TokenText::LeftParen,
        tokens@[i]@ == TokenText::StringConstant(s),
        tokens@[i + 1]@ == TokenText::RightParen,
        i >= 3 ==> !(tokens@[i - 3]@ is Identifier) && !(tokens@[i - 3]@ is LeftParen),
        folded@[i]@ is IntegerConstant,
        call_ensures(
            ConstFoldRegistry::lookup,
            (after, name, folded@[i]@->IntegerConstant_0),
            found,
        ),
    ensures
        folded@.len() == tokens@.len(),
        found is Some && found->Some_0@ == s,
        folded@[i - 2]@ == tokens@[i - 2]@,
        folded@[i - 1]@ == tokens@[i - 1]@,
        folded@[i + 1]@ == tokens@[i + 1]@,
{
    let texts = token_texts(tokens@);
    let out = token_texts(folded@);
    assert(texts.len() == tokens@.len() && out.len() == folded@.len());
    assert(texts[i - 2] == tokens@[i - 2]@ && texts[i - 1] == tokens@[i - 1]@);
    assert(texts[i] == tokens@[i]@ && texts[i + 1] == tokens@[i + 1]@);
    if i >= 3 {
        assert(texts[i - 3] == tokens@[i - 3]@);
    }
    literal_calls_in_scripts_are_folded(old(registry)@, texts, i, name@, s);
    other_tokens_are_handed_on(old(registry)@, texts, i + 1);
    assert(out[i - 2] == folded@[i - 2]@ && out[i - 1] == folded@[i - 1]@);
    assert(out[i] == folded@[i]@ && out[i + 1] == folded@[i + 1]@);
}

} // verus!

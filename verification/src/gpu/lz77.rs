//! LZ77 tokens: selecting them from per-position matches and expanding them.
use vstd::prelude::*;

verus! {

/// Default look-back window of the exhaustive match search.
pub const DEFAULT_WINDOW: u32 = 4096;

/// The shortest match that is recorded.
pub const MIN_MATCH: u32 = 3;

/// The longest match that is recorded.
pub const MAX_MATCH: u32 = 258;

/// One LZ77 token. With `length` 0 it is a literal, and `distance` holds the
/// byte. Else it is a back-reference of that length, `distance` bytes back.
#[derive(Debug, Clone, Copy, PartialEq, Eq, Structural)]
pub struct Token {
    pub length: u32,
    pub distance: u32,
}

impl Token {
    /// A literal token for `byte`.
    pub open spec fn literal_spec(byte: u8) -> Token {
        Token { length: 0, distance: byte as u32 }
    }

    pub fn literal(byte: u8) -> (r: Self)
        ensures
            r == Token::literal_spec(byte),
    {
        Token { length: 0, distance: byte as u32 }
    }

    /// A match of `length` bytes, `distance` bytes back.
    pub fn back_ref(length: u32, distance: u32) -> (r: Self)
        requires
            MIN_MATCH <= length <= MAX_MATCH,
            distance >= 1,
        ensures
            r == (Token { length, distance }),
    {
        Token { length, distance }
    }

    pub open spec fn is_literal_spec(&self) -> bool {
        self.length == 0
    }

    #[verifier::when_used_as_spec(is_literal_spec)]
    pub fn is_literal(&self) -> (r: bool)
        ensures
            r == self.is_literal_spec(),
    {
        self.length == 0
    }

    /// Whether a DEFLATE block can hold the token.
    pub open spec fn encodable(&self) -> bool {
        if self.length == 0 {
            self.distance <= 255
        } else {
            3 <= self.length <= 258 && 1 <= self.distance <= 32768
        }
    }
}

/// Whether a DEFLATE block can hold all the tokens.
pub open spec fn all_encodable(tokens: Seq<Token>) -> bool {
    forall|i: int| 0 <= i < tokens.len() ==> (#[trigger] tokens[i]).encodable()
}

/// `out` with `length` more bytes, each a copy of the one `distance` before it.
pub open spec fn copy_match(out: Seq<u8>, distance: nat, length: nat) -> Seq<u8>
    decreases length,
{
    if length == 0 {
        out
    } else {
        copy_match(out.push(out[out.len() - distance]), distance, (length - 1) as nat)
    }
}

/// `out` followed by what the token stands for.
pub open spec fn apply_token(out: Seq<u8>, token: Token) -> Seq<u8> {
    if token.is_literal() {
        out.push((token.distance % 256) as u8)
    } else {
        copy_match(out, token.distance as nat, token.length as nat)
    }
}

/// `out` followed by what the tokens stand for.
pub open spec fn expand_onto(out: Seq<u8>, tokens: Seq<Token>) -> Seq<u8>
    decreases tokens.len(),
{
    if tokens.len() == 0 {
        out
    } else {
        expand_onto(apply_token(out, tokens[0]), tokens.skip(1))
    }
}

/// No match reaches back before the first byte, and none has distance 0.
pub open spec fn reaches_back(out: Seq<u8>, tokens: Seq<Token>) -> bool
    decreases tokens.len(),
{
    if tokens.len() == 0 {
        true
    } else {
        &&& tokens[0].is_literal() || 1 <= tokens[0].distance <= out.len()
        &&& reaches_back(apply_token(out, tokens[0]), tokens.skip(1))
    }
}

/// The bytes that the tokens stand for.
pub open spec fn expand(tokens: Seq<Token>) -> Seq<u8> {
    expand_onto(Seq::empty(), tokens)
}

/// The tokens that the lazy policy selects from position `p` on. A match gives
/// way to a literal where the next position has a longer one.
pub open spec fn lazy_tokens(per_position: Seq<Token>, input: Seq<u8>, p: int) -> Seq<Token>
    decreases
            if p < per_position.len() {
                per_position.len() - p
            } else {
                0
            },
{
    if p < 0 || p >= per_position.len() {
        Seq::empty()
    } else if per_position[p].is_literal() {
        seq![per_position[p]] + lazy_tokens(per_position, input, p + 1)
    } else if p + 1 < per_position.len() && !per_position[p + 1].is_literal()
        && per_position[p + 1].length > per_position[p].length {
        seq![Token::literal_spec(input[p])] + lazy_tokens(per_position, input, p + 1)
    } else {
        seq![per_position[p]] + lazy_tokens(per_position, input, p + per_position[p].length)
    }
}

/// Walks the per-position matches with the lazy policy.
pub fn greedy_walk(per_position: &[Token], input: &[u8]) -> (r: Vec<Token>)
    requires
        per_position@.len() == input@.len(),
    ensures
        r@ == lazy_tokens(per_position@, input@, 0),
{
    let n: usize = per_position.len();
    let mut out: Vec<Token> = Vec::new();
    let mut p: usize = 0;
    while p < n
        invariant
            p <= n == per_position@.len() == input@.len(),
            out@ + lazy_tokens(per_position@, input@, p as int) == lazy_tokens(
                per_position@,
                input@,
                0,
            ),
        decreases n - p,
    {
        let t = per_position[p];
        let ghost start = out@;
        let ghost rest = lazy_tokens(per_position@, input@, p as int);
        if t.is_literal() {
            out.push(t);
            p = p + 1;
        } else if p + 1 < n && !per_position[p + 1].is_literal() && per_position[p + 1].length
            > t.length {
            out.push(Token::literal(input[p]));
            p = p + 1;
        } else {
            out.push(t);
            if t.length as usize >= n - p {
                assert(lazy_tokens(per_position@, input@, p + t.length) =~= Seq::<Token>::empty());
                p = n;
                assert(lazy_tokens(per_position@, input@, p as int) =~= Seq::<Token>::empty());
            } else {
                p = p + t.length as usize;
            }
        }
        assert(out@ + lazy_tokens(per_position@, input@, p as int) =~= start + rest);
    }
    assert(out@ + Seq::<Token>::empty() =~= out@);
    out
}

/// Expands a token stream to the bytes it stands for.
pub fn reconstruct(tokens: &[Token]) -> (r: Vec<u8>)
    requires
        reaches_back(Seq::empty(), tokens@),
    ensures
        r@ == expand(tokens@),
{
    let mut out: Vec<u8> = Vec::new();
    let mut i: usize = 0;
    assert(tokens@.skip(0) =~= tokens@);
    while i < tokens.len()
        invariant
            i <= tokens@.len(),
            reaches_back(out@, tokens@.skip(i as int)),
            expand_onto(out@, tokens@.skip(i as int)) == expand(tokens@),
        decreases tokens@.len() - i,
    {
        let t = tokens[i];
        let ghost before = out@;
        assert(tokens@.skip(i as int)[0] == t);
        assert(tokens@.skip(i as int).skip(1) =~= tokens@.skip(i + 1));
        if t.is_literal() {
            out.push((t.distance % 256) as u8);
        } else {
            let mut j: u32 = 0;
            while j < t.length
                invariant
                    j <= t.length,
                    1 <= t.distance <= out@.len(),
                    copy_match(out@, t.distance as nat, (t.length - j) as nat) == copy_match(
                        before,
                        t.distance as nat,
                        t.length as nat,
                    ),
                decreases t.length - j,
            {
                let b: u8 = out[out.len() - t.distance as usize];
                out.push(b);
                j = j + 1;
            }
        }
        i = i + 1;
    }
    out
}

/// Each position has its literal or a match that the input bears out.
pub open spec fn matches_input(per_position: Seq<Token>, input: Seq<u8>) -> bool {
    &&& per_position.len() == input.len()
    &&& forall|p: int|
        0 <= p < input.len() ==> token_at(#[trigger] per_position[p], input, p)
}

/// The token stands for what the input holds at `p`.
pub open spec fn token_at(token: Token, input: Seq<u8>, p: int) -> bool {
    if token.is_literal() {
        token.distance == input[p]
    } else {
        &&& p + token.length <= input.len()
        &&& 1 <= token.distance <= p
        &&& forall|i: int|
            p <= i < p + token.length ==> #[trigger] input[i] == input[i - token.distance]
    }
}

pub proof fn lemma_copy_match(input: Seq<u8>, p: int, distance: nat, length: nat)
    requires
        1 <= distance <= p,
        p + length <= input.len(),
        forall|i: int| p <= i < p + length ==> #[trigger] input[i] == input[i - distance],
    ensures
        copy_match(input.take(p), distance, length) == input.take(p + length),
    decreases length,
{
    if length > 0 {
        assert(input[p] == input[p - distance]);
        assert(input.take(p).push(input[p]) =~= input.take(p + 1));
        lemma_copy_match(input, p + 1, distance, (length - 1) as nat);
    }
}

proof fn lemma_lazy_tokens(per_position: Seq<Token>, input: Seq<u8>, p: int)
    requires
        matches_input(per_position, input),
        0 <= p <= input.len(),
    ensures
        expand_onto(input.take(p), lazy_tokens(per_position, input, p)) == input,
        reaches_back(input.take(p), lazy_tokens(per_position, input, p)),
    decreases input.len() - p,
{
    let tokens = lazy_tokens(per_position, input, p);
    if p < input.len() {
        let t = per_position[p];
        assert(token_at(t, input, p));
        let demoted = p + 1 < input.len() && !per_position[p + 1].is_literal()
            && per_position[p + 1].length > t.length;
        if t.is_literal() || demoted {
            lemma_lazy_tokens(per_position, input, p + 1);
            assert(tokens.skip(1) =~= lazy_tokens(per_position, input, p + 1));
            assert(input.take(p).push(input[p]) =~= input.take(p + 1));
        } else {
            lemma_lazy_tokens(per_position, input, p + t.length);
            assert(tokens.skip(1) =~= lazy_tokens(per_position, input, p + t.length));
            lemma_copy_match(input, p, t.distance as nat, t.length as nat);
        }
    } else {
        assert(input.take(p) =~= input);
    }
}

/// What the lazy walk selects expands to the input again, wherever the matches
/// are true of the input.
pub proof fn law_walk_reconstructs(per_position: Seq<Token>, input: Seq<u8>)
    requires
        matches_input(per_position, input),
    ensures
        reaches_back(Seq::empty(), lazy_tokens(per_position, input, 0)),
        expand(lazy_tokens(per_position, input, 0)) == input,
{
    lemma_lazy_tokens(per_position, input, 0);
    assert(input.take(0) =~= Seq::<u8>::empty());
}

/// The lazy walk selects no more tokens than there are positions, and keeps
/// them encodable.
pub proof fn lemma_lazy_encodable(per_position: Seq<Token>, input: Seq<u8>, p: int)
    requires
        0 <= p,
        per_position.len() == input.len(),
        all_encodable(per_position),
    ensures
        all_encodable(lazy_tokens(per_position, input, p)),
        p <= input.len() ==> lazy_tokens(per_position, input, p).len() <= input.len() - p,
        p > input.len() ==> lazy_tokens(per_position, input, p).len() == 0,
    decreases
            if p < input.len() {
                input.len() - p
            } else {
                0
            },
{
    if p < input.len() {
        let t = per_position[p];
        assert(t.encodable());
        let next = if t.is_literal() || (p + 1 < input.len() && !per_position[p + 1].is_literal()
            && per_position[p + 1].length > t.length) {
            p + 1
        } else {
            p + t.length
        };
        lemma_lazy_encodable(per_position, input, next);
        let all = lazy_tokens(per_position, input, p);
        let rest = lazy_tokens(per_position, input, next);
        assert forall|i: int| 0 <= i < all.len() implies (#[trigger] all[i]).encodable() by {
            if i > 0 {
                assert(all[i] == rest[i - 1]);
            }
        }
    }
}

/// How many bytes a token stands for.
pub open spec fn span(token: Token) -> nat {
    if token.length == 0 {
        1
    } else {
        token.length as nat
    }
}

/// How many bytes the first `j` tokens stand for: where the next one begins.
pub open spec fn start_of(tokens: Seq<Token>, j: int) -> nat
    decreases j,
{
    if j <= 0 || tokens.len() == 0 {
        0
    } else {
        span(tokens[0]) + start_of(tokens.skip(1), j - 1)
    }
}

/// The token is what the matches call for at the position `at` where it
/// begins: the match there, unless the next position has a strictly longer one,
/// in which case it is the literal; and the literal where there is no match.
pub open spec fn takes_the_unbeaten(
    per_position: Seq<Token>,
    input: Seq<u8>,
    token: Token,
    at: int,
) -> bool {
    let found = per_position[at];
    let beaten = at + 1 < per_position.len() && per_position[at + 1].length > found.length;
    &&& 0 <= at < per_position.len()
    &&& found.length == 0 ==> token == found
    &&& found.length > 0 && !beaten ==> token == found
    &&& found.length > 0 && beaten ==> token == (Token { length: 0, distance: input[at] as u32 })
}

proof fn lemma_lazy_choice(per_position: Seq<Token>, input: Seq<u8>, p: int, j: int)
    requires
        per_position.len() == input.len(),
        0 <= p,
        0 <= j < lazy_tokens(per_position, input, p).len(),
    ensures
        takes_the_unbeaten(
            per_position,
            input,
            lazy_tokens(per_position, input, p)[j],
            p + start_of(lazy_tokens(per_position, input, p), j),
        ),
    decreases j,
{
    let tokens = lazy_tokens(per_position, input, p);
    assert(p < per_position.len());
    if j > 0 {
        let next = p + span(tokens[0]);
        let more = lazy_tokens(per_position, input, next);
        assert(tokens.skip(1) =~= more);
        lemma_lazy_choice(per_position, input, next, j - 1);
        assert(tokens[j] == more[j - 1]);
    }
}

proof fn lemma_lazy_covers(per_position: Seq<Token>, input: Seq<u8>, p: int)
    requires
        per_position.len() == input.len(),
        0 <= p,
    ensures
        p + start_of(
            lazy_tokens(per_position, input, p),
            lazy_tokens(per_position, input, p).len() as int,
        ) >= per_position.len(),
    decreases
            if p < per_position.len() {
                per_position.len() - p
            } else {
                0
            },
{
    let tokens = lazy_tokens(per_position, input, p);
    if p < per_position.len() {
        let next = p + span(tokens[0]);
        assert(tokens.skip(1) =~= lazy_tokens(per_position, input, next));
        lemma_lazy_covers(per_position, input, next);
    }
}

/// The lazy walk takes the match of each position that it comes to, and gives it
/// up for the literal only where the next position has a strictly longer one. A
/// position without a match gives its literal. The walk goes on behind what it
/// took, and comes to the end of the input.
pub proof fn law_lazy_walk_takes_what_is_not_beaten(
    per_position: &[Token],
    input: &[u8],
    r: Vec<Token>,
)
    requires
        per_position@.len() == input@.len(),
        call_ensures(greedy_walk, (per_position, input), r),
    ensures
        forall|j: int|
            0 <= j < r@.len() ==> takes_the_unbeaten(
                per_position@,
                input@,
                #[trigger] r@[j],
                start_of(r@, j) as int,
            ),
        start_of(r@, r@.len() as int) >= input@.len(),
{
    assert(r@ == lazy_tokens(per_position@, input@, 0));
    assert forall|j: int| 0 <= j < r@.len() implies takes_the_unbeaten(
        per_position@,
        input@,
        #[trigger] r@[j],
        start_of(r@, j) as int,
    ) by {
        lemma_lazy_choice(per_position@, input@, 0, j);
    }
    lemma_lazy_covers(per_position@, input@, 0);
}

proof fn lemma_copied(out: Seq<u8>, distance: nat, length: nat)
    requires
        1 <= distance <= out.len(),
    ensures
        ({
            let all = copy_match(out, distance, length);
            &&& all.len() == out.len() + length
            &&& all.take(out.len() as int) == out
            &&& forall|i: int| out.len() <= i < all.len() ==> #[trigger] all[i] == all[i - distance]
        }),
    decreases length,
{
    let all = copy_match(out, distance, length);
    if length == 0 {
        assert(all.take(out.len() as int) =~= out);
    } else {
        let next = out.push(out[out.len() - distance]);
        lemma_copied(next, distance, (length - 1) as nat);
        assert forall|i: int| 0 <= i < next.len() implies #[trigger] all[i] == next[i] by {
            assert(all.take(next.len() as int)[i] == all[i]);
        }
        assert(all.take(out.len() as int) =~= out);
        let n = out.len() as int;
        assert(all[n] == next[n]);
        assert(all[n - distance] == next[n - distance]);
    }
}

/// What the bytes hold where a token begins: the byte of a literal, or a copy of
/// what stands so many bytes before.
pub open spec fn holds_token(bytes: Seq<u8>, at: int, token: Token) -> bool {
    &&& at + span(token) <= bytes.len()
    &&& token.length == 0 ==> bytes[at] == token.distance % 256
    &&& token.length > 0 ==> forall|i: int|
        at <= i < at + token.length ==> #[trigger] bytes[i] == bytes[i - token.distance]
}

proof fn lemma_expanded(out: Seq<u8>, tokens: Seq<Token>)
    requires
        reaches_back(out, tokens),
    ensures
        ({
            let all = expand_onto(out, tokens);
            &&& all.len() == out.len() + start_of(tokens, tokens.len() as int)
            &&& all.take(out.len() as int) == out
            &&& forall|j: int|
                0 <= j < tokens.len() ==> holds_token(
                    all,
                    out.len() as int + start_of(tokens, j),
                    #[trigger] tokens[j],
                )
        }),
    decreases tokens.len(),
{
    let all = expand_onto(out, tokens);
    if tokens.len() == 0 {
        assert(all.take(out.len() as int) =~= out);
    } else {
        let t = tokens[0];
        let next = apply_token(out, t);
        let rest = tokens.skip(1);
        if !t.is_literal() {
            lemma_copied(out, t.distance as nat, t.length as nat);
        } else {
            assert(next.take(out.len() as int) =~= out);
        }
        lemma_expanded(next, rest);
        assert forall|i: int| 0 <= i < next.len() implies #[trigger] all[i] == next[i] by {
            assert(all.take(next.len() as int)[i] == all[i]);
        }
        assert forall|i: int| 0 <= i < out.len() implies #[trigger] all[i] == out[i] by {
            assert(next.take(out.len() as int)[i] == next[i]);
        }
        assert(all.take(out.len() as int) =~= out);
        assert forall|j: int| 0 <= j < tokens.len() implies holds_token(
            all,
            out.len() as int + start_of(tokens, j),
            #[trigger] tokens[j],
        ) by {
            if j == 0 {
                let at = out.len() as int;
                if t.length > 0 {
                    assert forall|i: int| at <= i < at + t.length implies #[trigger] all[i]
                        == all[i - t.distance] by {
                        assert(next[i] == next[i - t.distance]);
                        assert(all[i - t.distance] == next[i - t.distance]);
                    }
                } else {
                    assert(all[at] == next[at]);
                }
            } else {
                assert(rest[j - 1] == tokens[j]);
                assert(holds_token(all, next.len() as int + start_of(rest, j - 1), rest[j - 1]));
            }
        }
    }
}

/// Tokens expand to as many bytes as they stand for. Where a literal begins there
/// is its byte, and where a match begins there are copies of the bytes so far
/// before, one for one.
pub proof fn law_expanding_does_what_the_tokens_say(tokens: &[Token], r: Vec<u8>)
    requires
        reaches_back(Seq::empty(), tokens@),
        call_ensures(reconstruct, (tokens,), r),
    ensures
        r@.len() == start_of(tokens@, tokens@.len() as int),
        forall|j: int|
            0 <= j < tokens@.len() ==> holds_token(
                r@,
                start_of(tokens@, j) as int,
                #[trigger] tokens@[j],
            ),
{
    lemma_expanded(Seq::empty(), tokens@);
}

} // verus!

use vstd::prelude::*;

use crate::position::{Position, Range};

verus! {

/// The lexical class of a token, as the C front end reports it.
#[derive(Clone, Copy, Debug, PartialEq, Eq, Structural)]
pub enum TokenKind {
    Punctuation,
    Keyword,
    Identifier,
    Literal,
    Comment,
}

/// One token of a macro expansion: its exact source spelling, its class, and
/// its source extent when the front end could map it to a file position.
#[derive(Debug)]
pub struct Token {
    pub spelling: String,
    pub kind: TokenKind,
    pub range: Option<Range>,
}

impl Clone for Token {
    fn clone(&self) -> (r: Self)
        ensures
            r == *self,
    {
        Token { spelling: self.spelling.clone(), kind: self.kind, range: self.range }
    }
}

impl Token {
    pub fn new(spelling: String, kind: TokenKind, range: Option<Range>) -> (r: Token)
        ensures
            r.spelling == spelling,
            r.kind == kind,
            r.range == range,
    {
        Token { spelling, kind, range }
    }
}

/// The token is spelled as the single character `c`.
pub open spec fn is_char_token(t: Token, c: char) -> bool {
    t.spelling@ == seq![c]
}

/// Whether `s` is exactly the one-character text `c`.
pub fn spelled_as(s: &String, c: char) -> (r: bool)
    ensures
        r == (s@ == seq![c]),
{
    let text = s.as_str();
    let n = text.unicode_len();
    if n != 1 {
        assert(s@.len() != seq![c].len());
        return false;
    }
    let first = text.get_char(0);
    proof {
        if first == c {
            assert(s@ =~= seq![c]);
        } else {
            assert(s@[0] != seq![c][0]);
        }
    }
    first == c
}

/// The progress of a split of macro arguments over a prefix of the tokens.
pub struct SplitState {
    pub args: Seq<Seq<Token>>,
    pub current: Seq<Token>,
    pub depth: nat,
    pub collecting: bool,
    pub done: bool,
}

pub open spec fn split_start() -> SplitState {
    SplitState { args: seq![], current: seq![], depth: 0, collecting: false, done: false }
}

/// One token of the split: nothing is kept before the first `(`; a `,` at the
/// top level closes a group; the `)` that matches the first `(` closes the
/// last group and ends the split; nested brackets are kept in the group.
pub open spec fn split_step(s: SplitState, t: Token) -> SplitState {
    if s.done {
        s
    } else if !s.collecting {
        if is_char_token(t, '(') {
            SplitState { collecting: true, ..s }
        } else {
            s
        }
    } else if is_char_token(t, '(') {
        SplitState { depth: s.depth + 1, current: s.current.push(t), ..s }
    } else if is_char_token(t, ')') {
        if s.depth == 0 {
            SplitState { args: s.args.push(s.current), done: true, ..s }
        } else {
            SplitState { depth: (s.depth - 1) as nat, current: s.current.push(t), ..s }
        }
    } else if is_char_token(t, ',') && s.depth == 0 {
        SplitState { args: s.args.push(s.current), current: seq![], ..s }
    } else {
        SplitState { current: s.current.push(t), ..s }
    }
}

pub open spec fn split_state(toks: Seq<Token>) -> SplitState
    decreases toks.len(),
{
    if toks.len() == 0 {
        split_start()
    } else {
        split_step(split_state(toks.drop_last()), toks.last())
    }
}

/// The top-level argument groups of a macro call's tokens.
pub open spec fn spec_split_args(toks: Seq<Token>) -> Seq<Seq<Token>> {
    split_state(toks).args
}

pub open spec fn groups_view(g: Seq<Vec<Token>>) -> Seq<Seq<Token>> {
    g.map_values(|v: Vec<Token>| v@)
}

proof fn lemma_split_done_stays(toks: Seq<Token>, k: int, j: int)
    requires
        0 <= k <= j <= toks.len(),
        split_state(toks.take(k)).done,
    ensures
        split_state(toks.take(j)) == split_state(toks.take(k)),
    decreases j - k,
{
    if j > k {
        lemma_split_done_stays(toks, k, j - 1);
        assert(toks.take(j).drop_last() =~= toks.take(j - 1));
    }
}

/// Splits the tokens of a macro call into its top-level arguments.
pub fn split_macro_args(tokens: &Vec<Token>) -> (r: Vec<Vec<Token>>)
    ensures
        groups_view(r@) == spec_split_args(tokens@),
{
    let mut args: Vec<Vec<Token>> = Vec::new();
    let mut current: Vec<Token> = Vec::new();
    let mut depth: usize = 0;
    let mut collecting = false;
    let mut i: usize = 0;
    while i < tokens.len()
        invariant
            i <= tokens.len(),
            depth <= i,
            groups_view(args@) == split_state(tokens@.take(i as int)).args,
            current@ == split_state(tokens@.take(i as int)).current,
            depth == split_state(tokens@.take(i as int)).depth,
            collecting == split_state(tokens@.take(i as int)).collecting,
            !split_state(tokens@.take(i as int)).done,
        decreases tokens.len() - i,
    {
        let t = &tokens[i];
        proof {
            assert(tokens@.take(i + 1).drop_last() =~= tokens@.take(i as int));
            assert(tokens@.take(i + 1).last() == tokens@[i as int]);
        }
        let open = spelled_as(&t.spelling, '(');
        let close = spelled_as(&t.spelling, ')');
        let comma = spelled_as(&t.spelling, ',');
        if !collecting {
            if open {
                collecting = true;
            }
        } else if open {
            depth = depth + 1;
            current.push(t.clone());
        } else if close {
            if depth == 0 {
                let mut group: Vec<Token> = Vec::new();
                std::mem::swap(&mut group, &mut current);
                args.push(group);
                proof {
                    assert(groups_view(args@) =~= split_state(tokens@.take(i + 1)).args);
                    lemma_split_done_stays(tokens@, i + 1, tokens@.len() as int);
                    assert(tokens@.take(tokens@.len() as int) =~= tokens@);
                }
                return args;
            } else {
                depth = depth - 1;
                current.push(t.clone());
            }
        } else if comma && depth == 0 {
            let mut group: Vec<Token> = Vec::new();
            std::mem::swap(&mut group, &mut current);
            args.push(group);
        } else {
            current.push(t.clone());
        }
        proof {
            assert(groups_view(args@) =~= split_state(tokens@.take(i + 1)).args);
            assert(current@ =~= split_state(tokens@.take(i + 1)).current);
        }
        i = i + 1;
    }
    proof {
        assert(tokens@.take(tokens@.len() as int) =~= tokens@);
    }
    args
}

/// The tokens' spellings, concatenated with nothing in between.
pub open spec fn spec_tokens_text(toks: Seq<Token>) -> Seq<char>
    decreases toks.len(),
{
    if toks.len() == 0 {
        seq![]
    } else {
        spec_tokens_text(toks.drop_last()) + toks.last().spelling@
    }
}

/// Concatenates the spellings of the tokens.
pub fn tokens_to_string(tokens: &Vec<Token>) -> (r: String)
    ensures
        r@ == spec_tokens_text(tokens@),
{
    let mut buffer = String::new();
    let mut i: usize = 0;
    while i < tokens.len()
        invariant
            i <= tokens.len(),
            buffer@ == spec_tokens_text(tokens@.take(i as int)),
        decreases tokens.len() - i,
    {
        proof {
            assert(tokens@.take(i + 1).drop_last() =~= tokens@.take(i as int));
        }
        buffer.append(tokens[i].spelling.as_str());
        i = i + 1;
    }
    proof {
        assert(tokens@.take(tokens@.len() as int) =~= tokens@);
    }
    buffer
}

/// From the start of the first token to the end of the last one.
pub open spec fn spec_tokens_range(toks: Seq<Token>) -> Option<Range> {
    if toks.len() == 0 {
        None
    } else {
        match (toks[0].range, toks.last().range) {
            (Some(a), Some(b)) => Some(Range { start: a.start, end: b.end }),
            _ => None,
        }
    }
}

/// The merged range of a token group, if it has tokens and both ends resolve.
pub fn tokens_range(tokens: &Vec<Token>) -> (r: Option<Range>)
    ensures
        r == spec_tokens_range(tokens@),
{
    if tokens.len() == 0 {
        return None;
    }
    let first = tokens[0].range;
    let last = tokens[tokens.len() - 1].range;
    match (first, last) {
        (Some(a), Some(b)) => Some(Range { start: a.start, end: b.end }),
        _ => None,
    }
}

/// The progress of the scan for a macro call's argument region.
pub struct RegionScan {
    pub depth: nat,
    pub start: Option<Position>,
    pub finished: bool,
    pub result: Option<Range>,
}

pub open spec fn region_start() -> RegionScan {
    RegionScan { depth: 0, start: None, finished: false, result: None }
}

/// One token of the scan: the first top-level `(` opens the region at its
/// end, the `)` that brings the depth back to zero closes it at its start; a
/// bracket whose extent does not resolve ends the scan without a region.
pub open spec fn region_step(s: RegionScan, t: Token) -> RegionScan {
    if s.finished {
        s
    } else if is_char_token(t, '(') {
        if s.depth == 0 {
            match t.range {
                None => RegionScan { finished: true, result: None, ..s },
                Some(r) => RegionScan { depth: 1, start: Some(r.end), ..s },
            }
        } else {
            RegionScan { depth: s.depth + 1, ..s }
        }
    } else if is_char_token(t, ')') {
        if s.depth == 0 {
            s
        } else if s.depth == 1 {
            match t.range {
                None => RegionScan { depth: 0, finished: true, result: None, ..s },
                Some(r) => match s.start {
                    Some(b) => RegionScan {
                        depth: 0,
                        finished: true,
                        result: Some(Range { start: b, end: r.start }),
                        ..s
                    },
                    None => RegionScan { depth: 0, ..s },
                },
            }
        } else {
            RegionScan { depth: (s.depth - 1) as nat, ..s }
        }
    } else {
        s
    }
}

pub open spec fn region_state(toks: Seq<Token>) -> RegionScan
    decreases toks.len(),
{
    if toks.len() == 0 {
        region_start()
    } else {
        region_step(region_state(toks.drop_last()), toks.last())
    }
}

/// The span between a macro call's outermost parentheses.
pub open spec fn spec_argument_region(toks: Seq<Token>) -> Option<Range> {
    region_state(toks).result
}

proof fn lemma_region_finished_stays(toks: Seq<Token>, k: int, j: int)
    requires
        0 <= k <= j <= toks.len(),
        region_state(toks.take(k)).finished,
    ensures
        region_state(toks.take(j)) == region_state(toks.take(k)),
    decreases j - k,
{
    if j > k {
        lemma_region_finished_stays(toks, k, j - 1);
        assert(toks.take(j).drop_last() =~= toks.take(j - 1));
    }
}

/// Finds the region between the outermost parentheses of a macro call.
pub fn macro_argument_region(tokens: &Vec<Token>) -> (r: Option<Range>)
    ensures
        r == spec_argument_region(tokens@),
{
    let mut depth: usize = 0;
    let mut start: Option<Position> = None;
    let mut i: usize = 0;
    while i < tokens.len()
        invariant
            i <= tokens.len(),
            depth <= i,
            depth == region_state(tokens@.take(i as int)).depth,
            start == region_state(tokens@.take(i as int)).start,
            !region_state(tokens@.take(i as int)).finished,
            region_state(tokens@.take(i as int)).result is None,
        decreases tokens.len() - i,
    {
        let t = &tokens[i];
        proof {
            assert(tokens@.take(i + 1).drop_last() =~= tokens@.take(i as int));
            assert(tokens@.take(i + 1).last() == tokens@[i as int]);
            assert(tokens@.take(tokens@.len() as int) =~= tokens@);
        }
        if spelled_as(&t.spelling, '(') {
            if depth == 0 {
                match t.range {
                    None => {
                        proof {
                            lemma_region_finished_stays(tokens@, i + 1, tokens@.len() as int);
                        }
                        return None;
                    },
                    Some(r) => {
                        start = Some(r.end);
                    },
                }
            }
            depth = depth + 1;
        } else if spelled_as(&t.spelling, ')') {
            if depth != 0 {
                depth = depth - 1;
                if depth == 0 {
                    match t.range {
                        None => {
                            proof {
                                lemma_region_finished_stays(tokens@, i + 1, tokens@.len() as int);
                            }
                            return None;
                        },
                        Some(r) => {
                            if let Some(b) = start {
                                proof {
                                    lemma_region_finished_stays(
                                        tokens@,
                                        i + 1,
                                        tokens@.len() as int,
                                    );
                                }
                                return Some(Range { start: b, end: r.start });
                            }
                        },
                    }
                }
            }
        }
        i = i + 1;
    }
    proof {
        assert(tokens@.take(tokens@.len() as int) =~= tokens@);
    }
    None
}

} // verus!

verus! {

/// One use of a macro in a translation unit: the macro's name, the source
/// extent of the whole use when it resolves, and its tokens (none where the
/// extent yields no tokens).
#[derive(Debug)]
pub struct MacroExpansion {
    pub name: String,
    pub extent: Option<Range>,
    pub tokens: Vec<Token>,
}

impl MacroExpansion {
    pub fn new(name: String, extent: Option<Range>, tokens: Vec<Token>) -> (r: MacroExpansion)
        ensures
            r.name == name,
            r.extent == extent,
            r.tokens == tokens,
    {
        MacroExpansion { name, extent, tokens }
    }
}

} // verus!

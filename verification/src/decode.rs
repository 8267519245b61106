//! The Dockerfile decoder: from a byte stream to an ordered sequence of
//! directives, or a decode error naming the malformed construct. Decoding is
//! total over well-formed lines: recognized keywords build the matching
//! directive, any other keyword line is retained verbatim as a passthrough.
//!
//! A physical line ending in a backslash continues onto the next physical
//! line; blank lines and `#` comment lines between instructions are skipped.
use vstd::prelude::*;

use crate::text::{
    bytes_of, is_line_space, ws_end, alpha_end, find_byte, upper_bytes, spec_parse_port,
    lemma_ws_end, lemma_alpha_end, lemma_find_byte, lemma_find_byte_is, ws_end_exec,
    alpha_end_exec, find_byte_exec, sub_vec, push_bytes, bytes_eq, lit, parse_port, line_space,
    upper, NEWLINE, HASH, BACKSLASH, DQUOTE, LBRACKET, RBRACKET, COMMA,
};
use crate::directive::{Mode, Directive, DirectiveModel, views, copy_bytes};
use vstd::slice::slice_subrange;

verus! {

/// Why a Dockerfile failed to decode, naming the offending construct.
#[derive(Clone, Copy, PartialEq, Eq, Structural, Debug)]
pub enum DecodeError {
    /// A logical line with no instruction keyword at all.
    EmptyInstruction,
    /// A leading token that is not a bare alphabetic instruction keyword.
    UnknownInstruction,
    /// An exec-form array whose quoted token is never closed.
    UnterminatedQuote,
    /// Any other syntax fault inside an exec-form array.
    MalformedExecForm,
}

/// Parse the quoted token list of an exec-form array, starting at `i`, which
/// must sit just after the opening bracket or a separating comma. Consumes
/// the closing bracket and requires only trailing whitespace after it.
pub open spec fn spec_parse_items(s: Seq<u8>, i: int) -> Result<Seq<Seq<u8>>, DecodeError>
    decreases s.len() - i,
    when 0 <= i <= s.len()
    via spec_parse_items_dec
{
    let j = ws_end(s, i);
    if j >= s.len() || s[j] != DQUOTE {
        Err(DecodeError::MalformedExecForm)
    } else {
        let q = find_byte(s, j + 1, DQUOTE);
        if q >= s.len() {
            Err(DecodeError::UnterminatedQuote)
        } else {
            let tok = s.subrange(j + 1, q);
            let k = ws_end(s, q + 1);
            if k >= s.len() {
                Err(DecodeError::MalformedExecForm)
            } else if s[k] == COMMA {
                match spec_parse_items(s, k + 1) {
                    Ok(toks) => Ok(seq![tok] + toks),
                    Err(e) => Err(e),
                }
            } else if s[k] == RBRACKET {
                if ws_end(s, k + 1) == s.len() {
                    Ok(seq![tok])
                } else {
                    Err(DecodeError::MalformedExecForm)
                }
            } else {
                Err(DecodeError::MalformedExecForm)
            }
        }
    }
}

#[via_fn]
proof fn spec_parse_items_dec(s: Seq<u8>, i: int) {
    lemma_ws_end(s, i);
    let j = ws_end(s, i);
    if j < s.len() && s[j] == DQUOTE {
        lemma_find_byte(s, j + 1, DQUOTE);
        let q = find_byte(s, j + 1, DQUOTE);
        if q < s.len() {
            lemma_ws_end(s, q + 1);
        }
    }
}

/// Parse a whole exec-form array `["a", "b"]`; `s` starts at the opening
/// bracket.
pub open spec fn spec_parse_array(s: Seq<u8>) -> Result<Seq<Seq<u8>>, DecodeError> {
    let j = ws_end(s, 1);
    if j < s.len() && s[j] == RBRACKET && ws_end(s, j + 1) == s.len() {
        Ok(Seq::empty())
    } else {
        spec_parse_items(s, 1)
    }
}

/// Payload of `CMD` / `ENTRYPOINT`: a bracketed remainder is the exec form,
/// anything else is the shell form taken verbatim as a single token.
pub open spec fn spec_parse_cmd_payload(rest: Seq<u8>) -> Result<(Mode, Seq<Seq<u8>>), DecodeError> {
    if rest.len() > 0 && rest[0] == LBRACKET {
        match spec_parse_array(rest) {
            Ok(toks) => Ok((Mode::Exec, toks)),
            Err(e) => Err(e),
        }
    } else {
        Ok((Mode::Shell, seq![rest]))
    }
}

/// Parse one logical line into a directive. The keyword is case-insensitive;
/// the remainder starts at the first non-blank byte after it.
pub open spec fn spec_parse_line(line: Seq<u8>) -> Result<DirectiveModel, DecodeError> {
    let k = alpha_end(line, 0);
    if k == 0 {
        Err(DecodeError::EmptyInstruction)
    } else if k < line.len() && !is_line_space(line[k]) {
        Err(DecodeError::UnknownInstruction)
    } else {
        let kw = upper_bytes(line.subrange(0, k));
        let rest = line.subrange(ws_end(line, k), line.len() as int);
        if kw == bytes_of("FROM"@) {
            Ok(DirectiveModel::From { image: rest })
        } else if kw == bytes_of("RUN"@) {
            Ok(DirectiveModel::Run { command: rest })
        } else if kw == bytes_of("CMD"@) {
            match spec_parse_cmd_payload(rest) {
                Ok((mode, tokens)) => Ok(DirectiveModel::Cmd { mode, tokens }),
                Err(e) => Err(e),
            }
        } else if kw == bytes_of("ENTRYPOINT"@) {
            match spec_parse_cmd_payload(rest) {
                Ok((mode, tokens)) => Ok(DirectiveModel::Entrypoint { mode, tokens }),
                Err(e) => Err(e),
            }
        } else if kw == bytes_of("EXPOSE"@) {
            Ok(DirectiveModel::Expose { port: spec_parse_port(rest) })
        } else {
            Ok(DirectiveModel::Other { line })
        }
    }
}

/// Split a byte stream into physical lines at newline bytes. A final line
/// without a trailing newline still counts; a trailing newline adds nothing.
pub open spec fn spec_split_lines(s: Seq<u8>) -> Seq<Seq<u8>>
    decreases s.len(),
    via spec_split_lines_dec
{
    if s.len() == 0 {
        Seq::empty()
    } else {
        let e = find_byte(s, 0, NEWLINE);
        if e >= s.len() {
            seq![s]
        } else {
            seq![s.subrange(0, e)] + spec_split_lines(s.subrange(e + 1, s.len() as int))
        }
    }
}

#[via_fn]
proof fn spec_split_lines_dec(s: Seq<u8>) {
    if s.len() != 0 {
        lemma_find_byte(s, 0, NEWLINE);
    }
}

pub open spec fn is_blank(l: Seq<u8>) -> bool {
    ws_end(l, 0) == l.len()
}

pub open spec fn is_comment(l: Seq<u8>) -> bool {
    let j = ws_end(l, 0);
    j < l.len() && l[j] == HASH
}

pub open spec fn ends_continuation(l: Seq<u8>) -> bool {
    l.len() > 0 && l.last() == BACKSLASH
}

/// Fold physical lines into logical lines: a line ending in a backslash joins
/// the next one (the backslash itself is dropped); blank and comment lines
/// between instructions are skipped. `acc` is the logical line under
/// construction.
pub open spec fn spec_logical_lines(lines: Seq<Seq<u8>>, acc: Option<Seq<u8>>) -> Seq<Seq<u8>>
    decreases lines.len(),
{
    if lines.len() == 0 {
        match acc {
            Option::None => Seq::empty(),
            Option::Some(a) => seq![a],
        }
    } else {
        let l = lines[0];
        let rest = lines.drop_first();
        match acc {
            Option::None => {
                if is_blank(l) || is_comment(l) {
                    spec_logical_lines(rest, Option::None)
                } else if ends_continuation(l) {
                    spec_logical_lines(rest, Option::Some(l.drop_last()))
                } else {
                    seq![l] + spec_logical_lines(rest, Option::None)
                }
            },
            Option::Some(a) => {
                if ends_continuation(l) {
                    spec_logical_lines(rest, Option::Some(a + l.drop_last()))
                } else {
                    seq![a + l] + spec_logical_lines(rest, Option::None)
                }
            },
        }
    }
}

/// Parse every logical line; the first error aborts the decode.
pub open spec fn spec_parse_lines(ls: Seq<Seq<u8>>) -> Result<Seq<DirectiveModel>, DecodeError>
    decreases ls.len(),
{
    if ls.len() == 0 {
        Ok(Seq::empty())
    } else {
        match spec_parse_line(ls[0]) {
            Err(e) => Err(e),
            Ok(d) => match spec_parse_lines(ls.drop_first()) {
                Err(e) => Err(e),
                Ok(ds) => Ok(seq![d] + ds),
            },
        }
    }
}

/// The whole decode: physical lines, logical joining, then line parsing.
pub open spec fn spec_decode(src: Seq<u8>) -> Result<Seq<DirectiveModel>, DecodeError> {
    spec_parse_lines(spec_logical_lines(spec_split_lines(src), Option::None))
}

pub open spec fn tokens_match(
    r: Result<Vec<Vec<u8>>, DecodeError>,
    m: Result<Seq<Seq<u8>>, DecodeError>,
) -> bool {
    match (r, m) {
        (Ok(v), Ok(t)) => v.deep_view() == t,
        (Err(e1), Err(e2)) => e1 == e2,
        _ => false,
    }
}

pub open spec fn payload_match(
    r: Result<(Mode, Vec<Vec<u8>>), DecodeError>,
    m: Result<(Mode, Seq<Seq<u8>>), DecodeError>,
) -> bool {
    match (r, m) {
        (Ok((mo, v)), Ok((ms, t))) => mo == ms && v.deep_view() == t,
        (Err(e1), Err(e2)) => e1 == e2,
        _ => false,
    }
}

pub open spec fn directive_match(
    r: Result<Directive, DecodeError>,
    m: Result<DirectiveModel, DecodeError>,
) -> bool {
    match (r, m) {
        (Ok(d), Ok(dm)) => d@ == dm,
        (Err(e1), Err(e2)) => e1 == e2,
        _ => false,
    }
}

pub open spec fn decode_match(
    r: Result<Vec<Directive>, DecodeError>,
    m: Result<Seq<DirectiveModel>, DecodeError>,
) -> bool {
    match (r, m) {
        (Ok(ds), Ok(ms)) => views(ds@) == ms,
        (Err(e1), Err(e2)) => e1 == e2,
        _ => false,
    }
}

fn parse_items(s: &[u8], i: usize) -> (r: Result<Vec<Vec<u8>>, DecodeError>)
    requires
        i <= s@.len(),
    ensures
        tokens_match(r, spec_parse_items(s@, i as int)),
    decreases s@.len() - i,
{
    proof {
        lemma_ws_end(s@, i as int);
    }
    let j = ws_end_exec(s, i);
    if j == s.len() || s[j] != DQUOTE {
        return Err(DecodeError::MalformedExecForm);
    }
    proof {
        lemma_find_byte(s@, j + 1, DQUOTE);
    }
    let q = find_byte_exec(s, j + 1, DQUOTE);
    if q == s.len() {
        return Err(DecodeError::UnterminatedQuote);
    }
    let tok = sub_vec(s, j + 1, q);
    proof {
        lemma_ws_end(s@, q + 1);
    }
    let k = ws_end_exec(s, q + 1);
    if k == s.len() {
        return Err(DecodeError::MalformedExecForm);
    }
    if s[k] == COMMA {
        match parse_items(s, k + 1) {
            Ok(mut toks) => {
                proof {
                    assert(toks.deep_view().len() == toks@.len());
                }
                toks.insert(0, tok);
                proof {
                    let m = spec_parse_items(s@, i as int);
                    assert(m matches Ok(t) ==> toks.deep_view() =~~= t);
                }
                Ok(toks)
            },
            Err(e) => Err(e),
        }
    } else if s[k] == RBRACKET {
        let t = ws_end_exec(s, k + 1);
        if t == s.len() {
            let mut toks: Vec<Vec<u8>> = Vec::new();
            toks.push(tok);
            proof {
                let m = spec_parse_items(s@, i as int);
                assert(m matches Ok(t2) ==> toks.deep_view() =~~= t2);
            }
            Ok(toks)
        } else {
            Err(DecodeError::MalformedExecForm)
        }
    } else {
        Err(DecodeError::MalformedExecForm)
    }
}

fn parse_array(s: &[u8]) -> (r: Result<Vec<Vec<u8>>, DecodeError>)
    requires
        s@.len() >= 1,
    ensures
        tokens_match(r, spec_parse_array(s@)),
{
    proof {
        lemma_ws_end(s@, 1);
    }
    let j = ws_end_exec(s, 1);
    if j < s.len() && s[j] == RBRACKET {
        let t = ws_end_exec(s, j + 1);
        if t == s.len() {
            let toks: Vec<Vec<u8>> = Vec::new();
            proof {
                assert(toks.deep_view() =~= Seq::<Seq<u8>>::empty());
            }
            return Ok(toks);
        }
    }
    parse_items(s, 1)
}

fn parse_cmd_payload(rest: &Vec<u8>) -> (r: Result<(Mode, Vec<Vec<u8>>), DecodeError>)
    ensures
        payload_match(r, spec_parse_cmd_payload(rest@)),
{
    if rest.len() > 0 && rest[0] == LBRACKET {
        match parse_array(rest.as_slice()) {
            Ok(toks) => Ok((Mode::Exec, toks)),
            Err(e) => Err(e),
        }
    } else {
        let mut toks: Vec<Vec<u8>> = Vec::new();
        toks.push(copy_bytes(rest));
        proof {
            assert(toks.deep_view() =~~= seq![rest@]);
        }
        Ok((Mode::Shell, toks))
    }
}

fn upper_vec(s: &[u8], k: usize) -> (r: Vec<u8>)
    requires
        k <= s@.len(),
    ensures
        r@ == upper_bytes(s@.subrange(0, k as int)),
{
    let mut r: Vec<u8> = Vec::new();
    let mut i: usize = 0;
    while i < k
        invariant
            i <= k <= s@.len(),
            r@ =~= upper_bytes(s@.subrange(0, i as int)),
        decreases k - i,
    {
        r.push(upper(s[i]));
        proof {
            assert(r@ =~= upper_bytes(s@.subrange(0, i + 1)));
        }
        i = i + 1;
    }
    r
}

fn eq_lit(v: &Vec<u8>, s: &str) -> (r: bool)
    requires
        s.is_ascii(),
    ensures
        r == (v@ == bytes_of(s@)),
{
    let l = lit(s);
    bytes_eq(v.as_slice(), l.as_slice())
}

/// Parse one logical line into a directive, or the error that names what is
/// wrong with it.
pub fn parse_line(line: &[u8]) -> (r: Result<Directive, DecodeError>)
    ensures
        directive_match(r, spec_parse_line(line@)),
{
    proof {
        lemma_alpha_end(line@, 0);
    }
    let k = alpha_end_exec(line, 0);
    if k == 0 {
        return Err(DecodeError::EmptyInstruction);
    }
    if k < line.len() && !line_space(line[k]) {
        return Err(DecodeError::UnknownInstruction);
    }
    let kw = upper_vec(line, k);
    proof {
        lemma_ws_end(line@, k as int);
    }
    let rs = ws_end_exec(line, k);
    proof {
        reveal_strlit("FROM");
        reveal_strlit("RUN");
        reveal_strlit("CMD");
        reveal_strlit("ENTRYPOINT");
        reveal_strlit("EXPOSE");
    }
    if eq_lit(&kw, "FROM") {
        let image = sub_vec(line, rs, line.len());
        Ok(Directive::From { image })
    } else if eq_lit(&kw, "RUN") {
        let command = sub_vec(line, rs, line.len());
        Ok(Directive::Run { command })
    } else if eq_lit(&kw, "CMD") {
        let rest = sub_vec(line, rs, line.len());
        match parse_cmd_payload(&rest) {
            Ok((mode, tokens)) => Ok(Directive::Cmd { mode, tokens }),
            Err(e) => Err(e),
        }
    } else if eq_lit(&kw, "ENTRYPOINT") {
        let rest = sub_vec(line, rs, line.len());
        match parse_cmd_payload(&rest) {
            Ok((mode, tokens)) => Ok(Directive::Entrypoint { mode, tokens }),
            Err(e) => Err(e),
        }
    } else if eq_lit(&kw, "EXPOSE") {
        let port = parse_port(slice_subrange(line, rs, line.len()));
        Ok(Directive::Expose { port })
    } else {
        let full = sub_vec(line, 0, line.len());
        proof {
            assert(full@ =~= line@);
        }
        Ok(Directive::Other { line: full })
    }
}

proof fn lemma_find_byte_shift(s: Seq<u8>, pos: int, b: u8)
    requires
        0 <= pos <= s.len(),
    ensures
        find_byte(s.subrange(pos, s.len() as int), 0, b) == find_byte(s, pos, b) - pos,
{
    lemma_find_byte(s, pos, b);
    let j = find_byte(s, pos, b);
    lemma_find_byte_is(s.subrange(pos, s.len() as int), 0, b, j - pos);
}

/// Split a byte stream into its physical lines.
pub fn split_physical_lines(src: &[u8]) -> (r: Vec<Vec<u8>>)
    ensures
        r.deep_view() == spec_split_lines(src@),
{
    let n: usize = src.len();
    let mut out: Vec<Vec<u8>> = Vec::new();
    let mut pos: usize = 0;
    proof {
        assert(src@.subrange(0, n as int) =~= src@);
    }
    while pos < n
        invariant
            pos <= n,
            n == src@.len(),
            spec_split_lines(src@) == out.deep_view() + spec_split_lines(
                src@.subrange(pos as int, n as int),
            ),
        decreases n - pos,
    {
        let ghost tail = src@.subrange(pos as int, n as int);
        proof {
            lemma_find_byte(src@, pos as int, NEWLINE);
            lemma_find_byte_shift(src@, pos as int, NEWLINE);
        }
        let e = find_byte_exec(src, pos, NEWLINE);
        proof {
            assert(out.deep_view().len() == out@.len());
        }
        if e == n {
            let l = sub_vec(src, pos, n);
            proof {
                assert(tail =~= src@.subrange(pos as int, n as int));
                assert(spec_split_lines(tail) == seq![tail]);
                assert(l@ =~= tail);
            }
            out.push(l);
            pos = n;
            proof {
                assert(spec_split_lines(src@.subrange(pos as int, n as int))
                    =~= Seq::<Seq<u8>>::empty());
                assert(spec_split_lines(src@) =~~= out.deep_view() + spec_split_lines(
                    src@.subrange(pos as int, n as int),
                ));
            }
        } else {
            let l = sub_vec(src, pos, e);
            proof {
                assert(tail.subrange(0, e - pos as int) =~= src@.subrange(pos as int, e as int));
                assert(tail.subrange(e - pos as int + 1, tail.len() as int) =~= src@.subrange(
                    e + 1,
                    n as int,
                ));
                assert(spec_split_lines(tail) == seq![src@.subrange(pos as int, e as int)]
                    + spec_split_lines(src@.subrange(e + 1, n as int)));
                assert(l@ =~= src@.subrange(pos as int, e as int));
            }
            out.push(l);
            pos = e + 1;
            proof {
                assert(spec_split_lines(src@) =~~= out.deep_view() + spec_split_lines(
                    src@.subrange(pos as int, n as int),
                ));
            }
        }
    }
    proof {
        assert(src@.subrange(n as int, n as int) =~= Seq::<u8>::empty());
        assert(spec_split_lines(src@.subrange(pos as int, n as int)) =~= Seq::<Seq<u8>>::empty());
        assert(spec_split_lines(src@) =~= out.deep_view());
    }
    out
}

fn blank_line(l: &Vec<u8>) -> (r: bool)
    ensures
        r == is_blank(l@),
{
    proof {
        lemma_ws_end(l@, 0);
    }
    let j = ws_end_exec(l.as_slice(), 0);
    j == l.len()
}

fn comment_line(l: &Vec<u8>) -> (r: bool)
    ensures
        r == is_comment(l@),
{
    proof {
        lemma_ws_end(l@, 0);
    }
    let j = ws_end_exec(l.as_slice(), 0);
    j < l.len() && l[j] == HASH
}

fn cont_line(l: &Vec<u8>) -> (r: bool)
    ensures
        r == ends_continuation(l@),
{
    l.len() > 0 && l[l.len() - 1] == BACKSLASH
}

pub open spec fn acc_view(acc: Option<Vec<u8>>) -> Option<Seq<u8>> {
    match acc {
        Option::None => Option::None,
        Option::Some(v) => Option::Some(v@),
    }
}

/// Join physical lines into logical lines.
pub fn join_logical_lines(lines: &Vec<Vec<u8>>) -> (r: Vec<Vec<u8>>)
    ensures
        r.deep_view() == spec_logical_lines(lines.deep_view(), Option::None),
{
    let n: usize = lines.len();
    let mut out: Vec<Vec<u8>> = Vec::new();
    let mut acc: Option<Vec<u8>> = None;
    let mut i: usize = 0;
    proof {
        assert(lines.deep_view().skip(0) =~= lines.deep_view());
        assert(out.deep_view() =~= Seq::<Seq<u8>>::empty());
        assert(out.deep_view() + spec_logical_lines(lines.deep_view(), Option::None)
            =~= spec_logical_lines(lines.deep_view(), Option::None));
    }
    while i < n
        invariant
            i <= n,
            n == lines@.len(),
            spec_logical_lines(lines.deep_view(), Option::None) == out.deep_view()
                + spec_logical_lines(lines.deep_view().skip(i as int), acc_view(acc)),
        decreases n - i,
    {
        let ghost tail = lines.deep_view().skip(i as int);
        proof {
            assert(tail.len() == n - i);
            assert(tail[0] =~= lines.deep_view()[i as int]);
            assert(tail.drop_first() =~= lines.deep_view().skip(i + 1));
            assert(lines.deep_view()[i as int] =~= lines@[i as int]@);
            assert(out.deep_view().len() == out@.len());
        }
        let l = &lines[i];
        let cont = cont_line(l);
        if acc.is_some() {
            let mut a = acc.unwrap();
            if cont {
                push_bytes(&mut a, slice_subrange(l.as_slice(), 0, l.len() - 1));
                proof {
                    assert(a@ =~= acc_view(acc)->Some_0 + l@.drop_last());
                }
                acc = Some(a);
            } else {
                push_bytes(&mut a, l.as_slice());
                proof {
                    assert(a@ =~= acc_view(acc)->Some_0 + l@);
                }
                out.push(a);
                acc = None;
            }
        } else {
            if blank_line(l) || comment_line(l) {
                // skipped between instructions
            } else if cont {
                let a = sub_vec(l.as_slice(), 0, l.len() - 1);
                proof {
                    assert(a@ =~= l@.drop_last());
                }
                acc = Some(a);
            } else {
                out.push(copy_bytes(l));
            }
        }
        proof {
            assert(spec_logical_lines(lines.deep_view(), Option::None) =~~= out.deep_view()
                + spec_logical_lines(lines.deep_view().skip(i + 1), acc_view(acc)));
        }
        i = i + 1;
    }
    proof {
        assert(lines.deep_view().skip(n as int) =~= Seq::<Seq<u8>>::empty());
    }
    if let Some(a) = acc {
        out.push(a);
    }
    proof {
        assert(out.deep_view() =~~= spec_logical_lines(lines.deep_view(), Option::None));
    }
    out
}

/// Parse every logical line; the first error aborts the decode.
pub fn parse_logical_lines(ls: &Vec<Vec<u8>>) -> (r: Result<Vec<Directive>, DecodeError>)
    ensures
        decode_match(r, spec_parse_lines(ls.deep_view())),
{
    let n: usize = ls.len();
    let mut out: Vec<Directive> = Vec::new();
    let mut i: usize = 0;
    proof {
        assert(ls.deep_view().skip(0) =~= ls.deep_view());
        assert(views(out@) =~= Seq::<DirectiveModel>::empty());
        match spec_parse_lines(ls.deep_view()) {
            Ok(ms) => {
                assert(views(out@) + ms =~= ms);
            },
            Err(e) => {},
        }
    }
    while i < n
        invariant
            i <= n,
            n == ls@.len(),
            match spec_parse_lines(ls.deep_view().skip(i as int)) {
                Ok(ms) => spec_parse_lines(ls.deep_view()) == Ok::<_, DecodeError>(
                    views(out@) + ms,
                ),
                Err(e) => spec_parse_lines(ls.deep_view()) == Err::<Seq<DirectiveModel>, _>(e),
            },
        decreases n - i,
    {
        let ghost tail = ls.deep_view().skip(i as int);
        proof {
            assert(tail.len() == n - i);
            assert(tail[0] =~= ls.deep_view()[i as int]);
            assert(tail.drop_first() =~= ls.deep_view().skip(i + 1));
            assert(ls.deep_view()[i as int] =~= ls@[i as int]@);
        }
        match parse_line(ls[i].as_slice()) {
            Ok(d) => {
                let ghost pre = out@;
                out.push(d);
                proof {
                    assert(out@.drop_last() =~= pre);
                    assert(views(out@).len() == out@.len());
                    assert(views(out@) =~= views(pre) + seq![d@]);
                    assert(spec_parse_line(tail[0]) == Ok::<DirectiveModel, DecodeError>(d@));
                    match spec_parse_lines(ls.deep_view().skip(i + 1)) {
                        Ok(ms) => {
                            assert(spec_parse_lines(tail) == Ok::<_, DecodeError>(
                                seq![d@] + ms,
                            ));
                            assert(views(pre) + (seq![d@] + ms) =~= views(out@) + ms);
                            assert(spec_parse_lines(ls.deep_view()) == Ok::<_, DecodeError>(
                                views(out@) + ms,
                            ));
                        },
                        Err(e2) => {
                            assert(spec_parse_lines(tail) == Err::<Seq<DirectiveModel>, _>(e2));
                            assert(spec_parse_lines(ls.deep_view()) == Err::<
                                Seq<DirectiveModel>,
                                _,
                            >(e2));
                        },
                    }
                }
            },
            Err(e) => {
                return Err(e);
            },
        }
        i = i + 1;
    }
    proof {
        assert(ls.deep_view().skip(n as int) =~= Seq::<Seq<u8>>::empty());
        assert(views(out@) + Seq::<DirectiveModel>::empty() =~= views(out@));
    }
    Ok(out)
}

/// Decode a Dockerfile byte stream into its ordered directive sequence.
pub fn decode_dockerfile(src: &[u8]) -> (r: Result<Vec<Directive>, DecodeError>)
    ensures
        decode_match(r, spec_decode(src@)),
{
    let phys = split_physical_lines(src);
    let logical = join_logical_lines(&phys);
    parse_logical_lines(&logical)
}

/// The decoder, named as the component: all Dockerfile-syntax concerns live
/// behind this entry point.
pub struct DockerfileDecoder;

impl DockerfileDecoder {
    /// Decode a whole Dockerfile source into an instruction sequence.
    pub fn decode_dockerfile_from_src(src: &[u8]) -> (r: Result<Vec<Directive>, DecodeError>)
        ensures
            decode_match(r, spec_decode(src@)),
    {
        decode_dockerfile(src)
    }
}

} // verus!

//! Whole-file rendering, and the round-trip law: decoding a rendered
//! instruction sequence gives back exactly that sequence, for every sequence
//! of well-formed directives — in particular for everything the transformer
//! emits.
use vstd::prelude::*;

use crate::text::{
    bytes_of, spec_join, spec_dec, is_line_space, is_alpha, ws_end, alpha_end, upper_bytes,
    spec_parse_port, lemma_ws_end_is, lemma_alpha_end_is, lemma_find_byte_is, lemma_dec_digits,
    push_bytes, NEWLINE, BACKSLASH, DQUOTE, LBRACKET, RBRACKET, COMMA, SPACE,
};
use crate::directive::{
    Mode, Directive, DirectiveModel, views, spec_render, spec_render_token, spec_render_array,
    spec_payload, quoted_tokens, wf_directive, wf_token, wf_payload,
};
use crate::decode::{
    DecodeError, spec_parse_items, spec_parse_array, spec_parse_cmd_payload, spec_parse_line,
    spec_split_lines, spec_logical_lines, spec_parse_lines, spec_decode, is_blank, is_comment,
    ends_continuation,
};

verus! {

/// A rendered Dockerfile: each directive's canonical line, newline-ended.
pub open spec fn spec_render_file(ds: Seq<DirectiveModel>) -> Seq<u8>
    decreases ds.len(),
{
    if ds.len() == 0 {
        Seq::empty()
    } else {
        spec_render(ds[0]) + seq![NEWLINE] + spec_render_file(ds.drop_first())
    }
}

proof fn lemma_render_file_snoc(ds: Seq<DirectiveModel>)
    requires
        ds.len() >= 1,
    ensures
        spec_render_file(ds) == spec_render_file(ds.drop_last()) + spec_render(ds.last()) + seq![
            NEWLINE,
        ],
    decreases ds.len(),
{
    if ds.len() == 1 {
        assert(ds.drop_last() =~= Seq::<DirectiveModel>::empty());
        assert(ds.drop_first() =~= Seq::<DirectiveModel>::empty());
        assert(spec_render_file(ds) =~= spec_render_file(ds.drop_last()) + spec_render(ds.last())
            + seq![NEWLINE]);
    } else {
        lemma_render_file_snoc(ds.drop_first());
        assert(ds.drop_first().drop_last() =~= ds.drop_last().drop_first());
        assert(ds.drop_first().last() == ds.last());
        assert(ds.drop_last().len() >= 1);
        assert(ds.drop_last()[0] == ds[0]);
        assert(spec_render_file(ds) =~= spec_render_file(ds.drop_last()) + spec_render(ds.last())
            + seq![NEWLINE]);
    }
}

/// Render a whole instruction sequence as Dockerfile text, one directive per
/// line.
pub fn render_dockerfile(ds: &Vec<Directive>) -> (r: Vec<u8>)
    ensures
        r@ == spec_render_file(views(ds@)),
{
    let ghost dv = views(ds@);
    let n: usize = ds.len();
    let mut out: Vec<u8> = Vec::new();
    let mut i: usize = 0;
    proof {
        assert(dv.subrange(0, 0) =~= Seq::<DirectiveModel>::empty());
        assert(out@ =~= spec_render_file(dv.subrange(0, 0)));
    }
    while i < n
        invariant
            i <= n,
            n == ds@.len(),
            dv == views(ds@),
            dv.len() == n,
            out@ == spec_render_file(dv.subrange(0, i as int)),
        decreases n - i,
    {
        let line = ds[i].render();
        push_bytes(&mut out, line.as_slice());
        out.push(NEWLINE);
        proof {
            assert(dv[i as int] == ds@[i as int]@);
            lemma_render_file_snoc(dv.subrange(0, i + 1));
            assert(dv.subrange(0, i + 1).drop_last() =~= dv.subrange(0, i as int));
            assert(dv.subrange(0, i + 1).last() == dv[i as int]);
            assert(out@ =~= spec_render_file(dv.subrange(0, i + 1)));
        }
        i = i + 1;
    }
    proof {
        assert(dv.subrange(0, n as int) =~= dv);
    }
    out
}

/// No byte of the joined quoted-token text is a newline, and its first byte
/// is a double quote when tokens exist.
proof fn lemma_join_quoted_clean(toks: Seq<Seq<u8>>)
    requires
        forall|k: int| 0 <= k < toks.len() ==> wf_token(#[trigger] toks[k]),
    ensures
        forall|x: int|
            0 <= x < spec_join(quoted_tokens(toks), bytes_of(", "@)).len() ==> spec_join(
                quoted_tokens(toks),
                bytes_of(", "@),
            )[x] != NEWLINE,
        toks.len() > 0 ==> spec_join(quoted_tokens(toks), bytes_of(", "@)).len() >= 2,
        toks.len() > 0 ==> spec_join(quoted_tokens(toks), bytes_of(", "@))[0] == DQUOTE,
    decreases toks.len(),
{
    reveal_strlit(", ");
    let sep = bytes_of(", "@);
    let q = quoted_tokens(toks);
    if toks.len() == 0 {
        assert(q.len() == 0);
    } else if toks.len() == 1 {
        assert(spec_join(q, sep) == q[0]);
        assert(q[0] == spec_render_token(toks[0]));
        assert forall|x: int| 0 <= x < spec_join(q, sep).len() implies spec_join(q, sep)[x]
            != NEWLINE by {
            if 1 <= x < spec_render_token(toks[0]).len() - 1 {
                assert(spec_render_token(toks[0])[x] == toks[0][x - 1]);
            }
        }
    } else {
        lemma_join_quoted_clean(toks.drop_first());
        assert(q.len() == toks.len());
        assert(q[0] == spec_render_token(toks[0]));
        assert(q.drop_first() =~= quoted_tokens(toks.drop_first()));
        assert(spec_join(q, sep) == q[0] + sep + spec_join(q.drop_first(), sep));
        let rest = spec_join(q.drop_first(), sep);
        let head = spec_render_token(toks[0]);
        assert forall|x: int| 0 <= x < spec_join(q, sep).len() implies spec_join(q, sep)[x]
            != NEWLINE by {
            if x < head.len() {
                if 1 <= x < head.len() - 1 {
                    assert(head[x] == toks[0][x - 1]);
                }
                assert(spec_join(q, sep)[x] == head[x]);
            } else if x < head.len() + 2 {
                assert(spec_join(q, sep)[x] == sep[x - head.len()]);
            } else {
                assert(spec_join(q, sep)[x] == rest[x - head.len() - 2]);
            }
        }
    }
}

/// The rendered line of a well-formed directive is a clean single line: it
/// has no newline, starts with an ASCII letter, and does not end in the
/// continuation marker.
proof fn lemma_render_clean(d: DirectiveModel)
    requires
        wf_directive(d),
    ensures
        spec_render(d).len() > 0,
        forall|x: int| 0 <= x < spec_render(d).len() ==> spec_render(d)[x] != NEWLINE,
        is_alpha(spec_render(d)[0]),
        spec_render(d).last() != BACKSLASH,
{
    reveal_strlit("FROM ");
    reveal_strlit("RUN ");
    reveal_strlit("CMD ");
    reveal_strlit("ENTRYPOINT ");
    reveal_strlit("EXPOSE ");
    reveal_strlit("EXPOSE");
    let r = spec_render(d);
    match d {
        DirectiveModel::From { image } => {
            assert forall|x: int| 0 <= x < r.len() implies r[x] != NEWLINE by {
                if x >= 5 {
                    assert(r[x] == image[x - 5]);
                }
            }
            assert(is_alpha(r[0]));
        },
        DirectiveModel::Run { command } => {
            assert forall|x: int| 0 <= x < r.len() implies r[x] != NEWLINE by {
                if x >= 4 {
                    assert(r[x] == command[x - 4]);
                }
            }
            assert(is_alpha(r[0]));
        },
        DirectiveModel::Cmd { mode, tokens } => {
            lemma_payload_clean(mode, tokens);
            let p = spec_payload(mode, tokens);
            assert forall|x: int| 0 <= x < r.len() implies r[x] != NEWLINE by {
                if x >= 4 {
                    assert(r[x] == p[x - 4]);
                }
            }
            assert(is_alpha(r[0]));
            if p.len() == 0 {
                assert(r.last() == 32);
            } else {
                assert(r.last() == p.last());
            }
        },
        DirectiveModel::Entrypoint { mode, tokens } => {
            lemma_payload_clean(mode, tokens);
            let p = spec_payload(mode, tokens);
            assert forall|x: int| 0 <= x < r.len() implies r[x] != NEWLINE by {
                if x >= 11 {
                    assert(r[x] == p[x - 11]);
                }
            }
            assert(is_alpha(r[0]));
            if p.len() == 0 {
                assert(r.last() == 32);
            } else {
                assert(r.last() == p.last());
            }
        },
        DirectiveModel::Expose { port } => {
            match port {
                Some(p) => {
                    lemma_dec_digits(p as int);
                    let dg = spec_dec(p as int);
                    assert forall|x: int| 0 <= x < r.len() implies r[x] != NEWLINE by {
                        if x >= 7 {
                            assert(r[x] == dg[x - 7]);
                            assert(crate::text::is_digit(dg[x - 7]));
                        }
                    }
                    assert(is_alpha(r[0]));
                    assert(r.last() == dg.last());
                    assert(crate::text::is_digit(dg.last()));
                },
                None => {
                    assert(is_alpha(r[0]));
                },
            }
        },
        DirectiveModel::Other { line } => {
            let k = alpha_end(line, 0);
            crate::text::lemma_alpha_end(line, 0);
            assert(is_alpha(r[0]));
        },
    }
}

/// The payload text of a well-formed `CMD` / `ENTRYPOINT` holds no newline,
/// and its last byte is never the continuation marker.
proof fn lemma_payload_clean(mode: Mode, tokens: Seq<Seq<u8>>)
    requires
        wf_payload(mode, tokens),
    ensures
        forall|x: int|
            0 <= x < spec_payload(mode, tokens).len() ==> spec_payload(mode, tokens)[x] != NEWLINE,
        spec_payload(mode, tokens).len() > 0 ==> spec_payload(mode, tokens).last() != BACKSLASH,
{
    let p = spec_payload(mode, tokens);
    if mode == Mode::Shell {
        assert(p == tokens[0]);
    } else {
        lemma_join_quoted_clean(tokens);
        let body = spec_join(quoted_tokens(tokens), bytes_of(", "@));
        assert forall|x: int| 0 <= x < p.len() implies p[x] != NEWLINE by {
            if x == 0 {
                assert(p[x] == LBRACKET);
            } else if x < p.len() - 1 {
                assert(p[x] == body[x - 1]);
            } else {
                assert(p[x] == RBRACKET);
            }
        }
        assert(p.last() == RBRACKET);
    }
}


/// Parsing inverts rendering for an exec-form token list, item by item:
/// from any position whose whitespace run ends at the rendered token text.
proof fn lemma_parse_items_render(s: Seq<u8>, i: int, toks: Seq<Seq<u8>>)
    requires
        0 <= i <= s.len(),
        toks.len() >= 1,
        forall|k: int| 0 <= k < toks.len() ==> wf_token(#[trigger] toks[k]),
        s.subrange(ws_end(s, i), s.len() as int) == spec_join(
            quoted_tokens(toks),
            bytes_of(", "@),
        ) + seq![RBRACKET],
    ensures
        spec_parse_items(s, i) == Ok::<Seq<Seq<u8>>, DecodeError>(toks),
    decreases toks.len(),
{
    reveal_strlit(", ");
    let sep = bytes_of(", "@);
    assert(sep.len() == 2 && sep[0] == COMMA && sep[1] == SPACE);
    crate::text::lemma_ws_end(s, i);
    let j = ws_end(s, i);
    let body = spec_join(quoted_tokens(toks), sep);
    let r = s.subrange(j, s.len() as int);
    assert(r.len() == body.len() + 1);
    assert(s.len() == j + body.len() + 1);
    let t0 = toks[0];
    let head = spec_render_token(t0);
    assert(head.len() == t0.len() + 2);
    assert(head[0] == DQUOTE && head[head.len() - 1] == DQUOTE);
    assert(forall|x: int| 1 <= x < head.len() - 1 ==> head[x] == t0[x - 1]);
    assert(quoted_tokens(toks)[0] == head);
    if toks.len() == 1 {
        assert(body == head);
    } else {
        assert(quoted_tokens(toks).drop_first() =~= quoted_tokens(toks.drop_first()));
        assert(body == head + sep + spec_join(quoted_tokens(toks.drop_first()), sep));
    }
    assert(s[j] == r[0] && r[0] == body[0] && body[0] == head[0]);
    assert(j < s.len() && s[j] == DQUOTE);
    let q = j + 1 + t0.len();
    assert forall|k: int| j + 1 <= k < q implies s[k] != DQUOTE by {
        assert(s[k] == r[k - j]);
        assert(r[k - j] == body[k - j]);
        assert(body[k - j] == head[k - j]);
        assert(head[k - j] == t0[k - j - 1]);
    }
    assert(s[q] == r[q - j] && r[q - j] == body[q - j] && body[q - j] == head[head.len() as int - 1]);
    assert(s[q] == DQUOTE);
    lemma_find_byte_is(s, j + 1, DQUOTE, q);
    assert forall|x: int| 0 <= x < t0.len() implies s.subrange(j + 1, q)[x] == t0[x] by {
        assert(s.subrange(j + 1, q)[x] == s[j + 1 + x]);
        assert(s[j + 1 + x] == r[1 + x]);
        assert(r[1 + x] == body[1 + x]);
        assert(body[1 + x] == head[1 + x]);
        assert(head[1 + x] == t0[x]);
    }
    assert(s.subrange(j + 1, q) =~= t0);
    if toks.len() == 1 {
        assert(q + 1 == j + body.len());
        assert(s[q + 1] == s.subrange(j, s.len() as int)[body.len() as int]);
        assert(s[q + 1] == r[body.len() as int]);
        assert(r[body.len() as int] == RBRACKET);
        lemma_ws_end_is(s, q + 1, q + 1);
        assert(q + 2 == s.len());
        lemma_ws_end_is(s, q + 2, q + 2);
        assert(spec_parse_items(s, i) == Ok::<Seq<Seq<u8>>, DecodeError>(
            seq![s.subrange(j + 1, q)],
        ));
        assert(seq![t0] =~= toks);
    } else {
        let rest_toks = toks.drop_first();
        let rest_body = spec_join(quoted_tokens(rest_toks), sep);
        lemma_join_quoted_clean(rest_toks);
        assert(rest_body.len() >= 2 && rest_body[0] == DQUOTE);
        assert(q + 1 - j == head.len());
        assert(s[q + 1] == r[head.len() as int]);
        assert(r[head.len() as int] == body[head.len() as int]);
        assert(body[head.len() as int] == sep[0]);
        assert(q + 1 < s.len());
        lemma_ws_end_is(s, q + 1, q + 1);
        assert(s[q + 2] == r[head.len() as int + 1]);
        assert(r[head.len() as int + 1] == body[head.len() as int + 1]);
        assert(body[head.len() as int + 1] == sep[1]);
        assert(s[q + 3] == r[head.len() as int + 2]);
        assert(r[head.len() as int + 2] == body[head.len() as int + 2]);
        assert(body[head.len() as int + 2] == rest_body[0]);
        lemma_ws_end_is(s, q + 2, q + 3);
        assert(body.len() == head.len() + 2 + rest_body.len());
        assert(s.len() - (q + 3) == rest_body.len() + 1);
        assert forall|x: int|
            0 <= x < s.len() - (q + 3) implies s.subrange(q + 3, s.len() as int)[x] == (rest_body
            + seq![RBRACKET])[x] by {
            assert(s.subrange(q + 3, s.len() as int)[x] == s[q + 3 + x]);
            assert(s[q + 3 + x] == r[head.len() as int + 2 + x]);
            if x < rest_body.len() {
                assert(r[head.len() as int + 2 + x] == body[head.len() as int + 2 + x]);
                assert(body[head.len() as int + 2 + x] == rest_body[x]);
            } else {
                assert(head.len() as int + 2 + x == body.len());
                assert(r[body.len() as int] == RBRACKET);
            }
        }
        assert(s.subrange(q + 3, s.len() as int) =~= rest_body + seq![RBRACKET]);
        lemma_parse_items_render(s, q + 2, rest_toks);
        assert(spec_parse_items(s, q + 2) == Ok::<Seq<Seq<u8>>, DecodeError>(rest_toks));
        assert(spec_parse_items(s, i) == Ok::<Seq<Seq<u8>>, DecodeError>(
            seq![s.subrange(j + 1, q)] + rest_toks,
        ));
        assert(seq![t0] + rest_toks =~= toks);
    }
}

/// Parsing inverts rendering for a whole exec-form array.
proof fn lemma_parse_array_render(toks: Seq<Seq<u8>>)
    requires
        forall|k: int| 0 <= k < toks.len() ==> wf_token(#[trigger] toks[k]),
    ensures
        spec_parse_array(spec_render_array(toks)) == Ok::<Seq<Seq<u8>>, DecodeError>(toks),
{
    reveal_strlit(", ");
    let sep = bytes_of(", "@);
    let body = spec_join(quoted_tokens(toks), sep);
    let s = spec_render_array(toks);
    assert(s.len() == body.len() + 2);
    assert(s[0] == LBRACKET);
    if toks.len() == 0 {
        assert(quoted_tokens(toks).len() == 0);
        assert(body.len() == 0);
        assert(s =~= seq![LBRACKET, RBRACKET]);
        lemma_ws_end_is(s, 1, 1);
        lemma_ws_end_is(s, 2, 2);
        assert(spec_parse_array(s) == Ok::<Seq<Seq<u8>>, DecodeError>(Seq::empty()));
        assert(Seq::<Seq<u8>>::empty() =~= toks);
    } else {
        lemma_join_quoted_clean(toks);
        assert(s[1] == body[0] && body[0] == DQUOTE);
        lemma_ws_end_is(s, 1, 1);
        assert(s.subrange(1, s.len() as int) =~= body + seq![RBRACKET]);
        lemma_parse_items_render(s, 1, toks);
    }
}

/// Parsing inverts rendering for a `CMD` / `ENTRYPOINT` payload.
proof fn lemma_parse_payload_render(mode: Mode, toks: Seq<Seq<u8>>)
    requires
        wf_payload(mode, toks),
    ensures
        spec_parse_cmd_payload(spec_payload(mode, toks)) == Ok::<
            (Mode, Seq<Seq<u8>>),
            DecodeError,
        >((mode, toks)),
{
    let p = spec_payload(mode, toks);
    if mode == Mode::Shell {
        assert(p == toks[0]);
        assert(spec_parse_cmd_payload(p) == Ok::<(Mode, Seq<Seq<u8>>), DecodeError>(
            (Mode::Shell, seq![p]),
        ));
        assert(seq![toks[0]] =~= toks);
    } else {
        assert(p.len() > 0 && p[0] == LBRACKET);
        lemma_parse_array_render(toks);
    }
}

/// The keyword shape of a rendered line: keyword, one space, remainder.
proof fn lemma_keyword_line(line: Seq<u8>, kw: Seq<u8>, rest: Seq<u8>)
    requires
        line == kw + seq![SPACE] + rest,
        kw.len() >= 1,
        forall|x: int| 0 <= x < kw.len() ==> is_alpha(#[trigger] kw[x]),
        rest.len() > 0 ==> !is_line_space(rest[0]),
    ensures
        alpha_end(line, 0) == kw.len(),
        line.subrange(0, kw.len() as int) == kw,
        ws_end(line, kw.len() as int) == kw.len() as int + 1,
        line.subrange(kw.len() as int + 1, line.len() as int) == rest,
{
    assert(line[kw.len() as int] == SPACE);
    lemma_alpha_end_is(line, 0, kw.len() as int);
    assert(line.subrange(0, kw.len() as int) =~= kw);
    lemma_ws_end_is(line, kw.len() as int, kw.len() as int + 1);
    assert(line.subrange(kw.len() as int + 1, line.len() as int) =~= rest);
}

/// The five modeled keywords are pairwise distinct and unchanged by
/// uppercasing.
proof fn lemma_keyword_facts()
    ensures
        bytes_of("FROM"@).len() == 4,
        bytes_of("RUN"@).len() == 3,
        bytes_of("CMD"@).len() == 3,
        bytes_of("ENTRYPOINT"@).len() == 10,
        bytes_of("EXPOSE"@).len() == 6,
        forall|x: int| 0 <= x < 4 ==> is_alpha(#[trigger] bytes_of("FROM"@)[x]),
        forall|x: int| 0 <= x < 3 ==> is_alpha(#[trigger] bytes_of("RUN"@)[x]),
        forall|x: int| 0 <= x < 3 ==> is_alpha(#[trigger] bytes_of("CMD"@)[x]),
        forall|x: int| 0 <= x < 10 ==> is_alpha(#[trigger] bytes_of("ENTRYPOINT"@)[x]),
        forall|x: int| 0 <= x < 6 ==> is_alpha(#[trigger] bytes_of("EXPOSE"@)[x]),
        upper_bytes(bytes_of("FROM"@)) == bytes_of("FROM"@),
        upper_bytes(bytes_of("RUN"@)) == bytes_of("RUN"@),
        upper_bytes(bytes_of("CMD"@)) == bytes_of("CMD"@),
        upper_bytes(bytes_of("ENTRYPOINT"@)) == bytes_of("ENTRYPOINT"@),
        upper_bytes(bytes_of("EXPOSE"@)) == bytes_of("EXPOSE"@),
        bytes_of("RUN"@) != bytes_of("CMD"@),
{
    reveal_strlit("FROM");
    reveal_strlit("RUN");
    reveal_strlit("CMD");
    reveal_strlit("ENTRYPOINT");
    reveal_strlit("EXPOSE");
    assert(upper_bytes(bytes_of("FROM"@)) =~= bytes_of("FROM"@));
    assert(upper_bytes(bytes_of("RUN"@)) =~= bytes_of("RUN"@));
    assert(upper_bytes(bytes_of("CMD"@)) =~= bytes_of("CMD"@));
    assert(upper_bytes(bytes_of("ENTRYPOINT"@)) =~= bytes_of("ENTRYPOINT"@));
    assert(upper_bytes(bytes_of("EXPOSE"@)) =~= bytes_of("EXPOSE"@));
    assert(bytes_of("RUN"@)[0] == 82);
    assert(bytes_of("CMD"@)[0] == 67);
}

/// Parsing inverts rendering for every well-formed directive.
pub proof fn lemma_parse_render_line(d: DirectiveModel)
    requires
        wf_directive(d),
    ensures
        spec_parse_line(spec_render(d)) == Ok::<DirectiveModel, DecodeError>(d),
{
    reveal_strlit("FROM ");
    reveal_strlit("RUN ");
    reveal_strlit("CMD ");
    reveal_strlit("ENTRYPOINT ");
    reveal_strlit("EXPOSE ");
    reveal_strlit("EXPOSE");
    reveal_strlit("FROM");
    reveal_strlit("RUN");
    reveal_strlit("CMD");
    reveal_strlit("ENTRYPOINT");
    lemma_keyword_facts();
    let line = spec_render(d);
    match d {
        DirectiveModel::From { image } => {
            assert(bytes_of("FROM "@) =~= bytes_of("FROM"@) + seq![SPACE]);
            assert(line =~= bytes_of("FROM"@) + seq![SPACE] + image);
            lemma_keyword_line(line, bytes_of("FROM"@), image);
        },
        DirectiveModel::Run { command } => {
            assert(bytes_of("RUN "@) =~= bytes_of("RUN"@) + seq![SPACE]);
            assert(line =~= bytes_of("RUN"@) + seq![SPACE] + command);
            lemma_keyword_line(line, bytes_of("RUN"@), command);
        },
        DirectiveModel::Cmd { mode, tokens } => {
            let p = spec_payload(mode, tokens);
            assert(bytes_of("CMD "@) =~= bytes_of("CMD"@) + seq![SPACE]);
            assert(line =~= bytes_of("CMD"@) + seq![SPACE] + p);
            if mode == Mode::Shell {
                assert(p == tokens[0]);
            } else {
                assert(p[0] == LBRACKET);
            }
            lemma_keyword_line(line, bytes_of("CMD"@), p);
            lemma_parse_payload_render(mode, tokens);
        },
        DirectiveModel::Entrypoint { mode, tokens } => {
            let p = spec_payload(mode, tokens);
            assert(bytes_of("ENTRYPOINT "@) =~= bytes_of("ENTRYPOINT"@) + seq![SPACE]);
            assert(line =~= bytes_of("ENTRYPOINT"@) + seq![SPACE] + p);
            if mode == Mode::Shell {
                assert(p == tokens[0]);
            } else {
                assert(p[0] == LBRACKET);
            }
            lemma_keyword_line(line, bytes_of("ENTRYPOINT"@), p);
            lemma_parse_payload_render(mode, tokens);
        },
        DirectiveModel::Expose { port } => {
            match port {
                Some(pt) => {
                    lemma_dec_digits(pt as int);
                    let dg = spec_dec(pt as int);
                    assert(bytes_of("EXPOSE "@) =~= bytes_of("EXPOSE"@) + seq![SPACE]);
                    assert(line =~= bytes_of("EXPOSE"@) + seq![SPACE] + dg);
                    assert(crate::text::is_digit(dg[0]));
                    lemma_keyword_line(line, bytes_of("EXPOSE"@), dg);
                    assert(spec_parse_port(dg) == Some(pt));
                },
                None => {
                    assert(line == bytes_of("EXPOSE"@));
                    lemma_alpha_end_is(line, 0, 6);
                    assert(line.subrange(0, 6) =~= line);
                    assert(line.subrange(6, 6) =~= Seq::<u8>::empty());
                    assert(spec_parse_port(Seq::empty()) is None);
                },
            }
        },
        DirectiveModel::Other { line: l } => {
            crate::text::lemma_alpha_end(l, 0);
        },
    }
}

/// The rendered lines of a directive sequence.
pub open spec fn rendered_lines(ds: Seq<DirectiveModel>) -> Seq<Seq<u8>> {
    ds.map_values(|d: DirectiveModel| spec_render(d))
}

proof fn lemma_split_render_file(ds: Seq<DirectiveModel>)
    requires
        forall|k: int| 0 <= k < ds.len() ==> wf_directive(#[trigger] ds[k]),
    ensures
        spec_split_lines(spec_render_file(ds)) == rendered_lines(ds),
    decreases ds.len(),
{
    if ds.len() == 0 {
        assert(spec_split_lines(spec_render_file(ds)) =~= rendered_lines(ds));
    } else {
        lemma_render_clean(ds[0]);
        let head = spec_render(ds[0]);
        let file = spec_render_file(ds);
        let rest = spec_render_file(ds.drop_first());
        assert(forall|k: int| 0 <= k < ds.drop_first().len() ==> wf_directive(
            #[trigger] ds.drop_first()[k],
        ));
        lemma_split_render_file(ds.drop_first());
        assert(file == head + seq![NEWLINE] + rest);
        assert(file.len() > 0);
        assert forall|k: int| 0 <= k < head.len() implies file[k] != NEWLINE by {
            assert(file[k] == head[k]);
        }
        assert(file[head.len() as int] == NEWLINE);
        lemma_find_byte_is(file, 0, NEWLINE, head.len() as int);
        assert(file.subrange(0, head.len() as int) =~= head);
        assert(file.subrange(head.len() as int + 1, file.len() as int) =~= rest);
        assert(rendered_lines(ds) =~= seq![head] + rendered_lines(ds.drop_first()));
        assert(spec_split_lines(file) =~= rendered_lines(ds));
    }
}

proof fn lemma_logical_identity(lines: Seq<Seq<u8>>)
    requires
        forall|k: int|
            0 <= k < lines.len() ==> {
                &&& !is_blank(#[trigger] lines[k])
                &&& !is_comment(lines[k])
                &&& !ends_continuation(lines[k])
            },
    ensures
        spec_logical_lines(lines, Option::None) == lines,
    decreases lines.len(),
{
    if lines.len() == 0 {
        assert(spec_logical_lines(lines, Option::None) =~= lines);
    } else {
        lemma_logical_identity(lines.drop_first());
        assert(spec_logical_lines(lines, Option::None) =~= lines);
    }
}

proof fn lemma_parse_rendered_lines(ds: Seq<DirectiveModel>)
    requires
        forall|k: int| 0 <= k < ds.len() ==> wf_directive(#[trigger] ds[k]),
    ensures
        spec_parse_lines(rendered_lines(ds)) == Ok::<Seq<DirectiveModel>, DecodeError>(ds),
    decreases ds.len(),
{
    if ds.len() == 0 {
        assert(rendered_lines(ds).len() == 0);
        assert(Seq::<DirectiveModel>::empty() =~= ds);
    } else {
        lemma_parse_render_line(ds[0]);
        assert(rendered_lines(ds)[0] == spec_render(ds[0]));
        assert(rendered_lines(ds).drop_first() =~= rendered_lines(ds.drop_first()));
        lemma_parse_rendered_lines(ds.drop_first());
        assert(seq![ds[0]] + ds.drop_first() =~= ds);
    }
}

/// The decoder round trip: rendering any sequence of well-formed directives
/// and decoding the text yields exactly the original sequence.
pub proof fn lemma_render_decode_round_trip(ds: Seq<DirectiveModel>)
    requires
        forall|k: int| 0 <= k < ds.len() ==> wf_directive(#[trigger] ds[k]),
    ensures
        spec_decode(spec_render_file(ds)) == Ok::<Seq<DirectiveModel>, DecodeError>(ds),
{
    lemma_split_render_file(ds);
    let lines = rendered_lines(ds);
    assert forall|k: int|
        0 <= k < lines.len() implies {
        &&& !is_blank(#[trigger] lines[k])
        &&& !is_comment(lines[k])
        &&& !ends_continuation(lines[k])
    } by {
        lemma_render_clean(ds[k]);
        let l = lines[k];
        assert(l == spec_render(ds[k]));
        assert(!is_line_space(l[0]));
        lemma_ws_end_is(l, 0, 0);
    }
    lemma_logical_identity(lines);
    lemma_parse_rendered_lines(ds);
}

} // verus!

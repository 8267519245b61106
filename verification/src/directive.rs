//! The directive model: one parsed Dockerfile instruction, with its canonical
//! text rendering. Rendering is deterministic, context-free, and — for every
//! well-formed directive — inverted exactly by the decoder (`decode`).
use vstd::prelude::*;

use crate::text::{
    bytes_of, spec_join, spec_dec, is_line_space, upper_bytes, lit, join, dec_u16,
    push_bytes, alpha_end, NEWLINE, BACKSLASH, DQUOTE, LBRACKET, RBRACKET,
};

verus! {

/// The two syntactic forms of `CMD` / `ENTRYPOINT`: a free-form shell string,
/// or a bracketed array of literal argument tokens.
#[derive(Clone, Copy, PartialEq, Eq, Structural, Debug)]
pub enum Mode {
    Shell,
    Exec,
}

/// One Dockerfile instruction. `Other` retains an unmodeled instruction line
/// verbatim, so decoding never drops user content.
#[derive(Debug)]
pub enum Directive {
    From { image: Vec<u8> },
    Run { command: Vec<u8> },
    Cmd { mode: Mode, tokens: Vec<Vec<u8>> },
    Entrypoint { mode: Mode, tokens: Vec<Vec<u8>> },
    Expose { port: Option<u16> },
    Other { line: Vec<u8> },
}

/// Mathematical model of a directive: the same shape over byte sequences.
pub enum DirectiveModel {
    From { image: Seq<u8> },
    Run { command: Seq<u8> },
    Cmd { mode: Mode, tokens: Seq<Seq<u8>> },
    Entrypoint { mode: Mode, tokens: Seq<Seq<u8>> },
    Expose { port: Option<u16> },
    Other { line: Seq<u8> },
}

impl View for Directive {
    type V = DirectiveModel;

    open spec fn view(&self) -> DirectiveModel {
        match self {
            Directive::From { image } => DirectiveModel::From { image: image@ },
            Directive::Run { command } => DirectiveModel::Run { command: command@ },
            Directive::Cmd { mode, tokens } => DirectiveModel::Cmd {
                mode: *mode,
                tokens: tokens.deep_view(),
            },
            Directive::Entrypoint { mode, tokens } => DirectiveModel::Entrypoint {
                mode: *mode,
                tokens: tokens.deep_view(),
            },
            Directive::Expose { port } => DirectiveModel::Expose { port: *port },
            Directive::Other { line } => DirectiveModel::Other { line: line@ },
        }
    }
}

/// The models of a sequence of directives.
pub open spec fn views(ds: Seq<Directive>) -> Seq<DirectiveModel> {
    ds.map_values(|d: Directive| d@)
}

pub open spec fn spec_render_token(t: Seq<u8>) -> Seq<u8> {
    seq![DQUOTE] + t + seq![DQUOTE]
}

/// Each token wrapped in double quotes.
pub open spec fn quoted_tokens(toks: Seq<Seq<u8>>) -> Seq<Seq<u8>> {
    toks.map_values(|t: Seq<u8>| spec_render_token(t))
}

/// `["a", "b"]`: the canonical exec-form array text.
pub open spec fn spec_render_array(toks: Seq<Seq<u8>>) -> Seq<u8> {
    seq![LBRACKET] + spec_join(quoted_tokens(toks), bytes_of(", "@)) + seq![RBRACKET]
}

proof fn lemma_quoted_tokens_push(toks: Seq<Seq<u8>>, i: int)
    requires
        0 <= i < toks.len(),
    ensures
        quoted_tokens(toks.subrange(0, i + 1)) == quoted_tokens(toks.subrange(0, i)).push(
            spec_render_token(toks[i]),
        ),
{
    assert(quoted_tokens(toks.subrange(0, i + 1)) =~= quoted_tokens(toks.subrange(0, i)).push(
        spec_render_token(toks[i]),
    ));
}

/// Payload text of a `CMD` / `ENTRYPOINT`: the bare string in shell mode, the
/// bracketed array in exec mode.
pub open spec fn spec_payload(mode: Mode, toks: Seq<Seq<u8>>) -> Seq<u8> {
    if mode == Mode::Shell {
        if toks.len() > 0 {
            toks[0]
        } else {
            Seq::empty()
        }
    } else {
        spec_render_array(toks)
    }
}

/// The canonical single-line rendering of a directive.
pub open spec fn spec_render(d: DirectiveModel) -> Seq<u8> {
    match d {
        DirectiveModel::From { image } => bytes_of("FROM "@) + image,
        DirectiveModel::Run { command } => bytes_of("RUN "@) + command,
        DirectiveModel::Cmd { mode, tokens } => bytes_of("CMD "@) + spec_payload(mode, tokens),
        DirectiveModel::Entrypoint { mode, tokens } => bytes_of("ENTRYPOINT "@) + spec_payload(
            mode,
            tokens,
        ),
        DirectiveModel::Expose { port } => match port {
            Some(p) => bytes_of("EXPOSE "@) + spec_dec(p as int),
            None => bytes_of("EXPOSE"@),
        },
        DirectiveModel::Other { line } => line,
    }
}

/// Free-form instruction text that renders onto a single logical line: no
/// newline, no leading whitespace, no trailing continuation marker.
pub open spec fn wf_free_text(t: Seq<u8>) -> bool {
    &&& forall|i: int| 0 <= i < t.len() ==> t[i] != NEWLINE
    &&& t.len() > 0 ==> !is_line_space(t[0]) && t.last() != BACKSLASH
}

/// An exec-form token: anything without a double quote or newline.
pub open spec fn wf_token(t: Seq<u8>) -> bool {
    forall|i: int| 0 <= i < t.len() ==> t[i] != DQUOTE && t[i] != NEWLINE
}

pub open spec fn wf_payload(mode: Mode, toks: Seq<Seq<u8>>) -> bool {
    if mode == Mode::Shell {
        &&& toks.len() == 1
        &&& wf_free_text(toks[0])
        &&& toks[0].len() > 0 ==> toks[0][0] != LBRACKET
    } else {
        forall|i: int| 0 <= i < toks.len() ==> wf_token(#[trigger] toks[i])
    }
}

pub open spec fn known_keyword(kw: Seq<u8>) -> bool {
    ||| kw == bytes_of("FROM"@)
    ||| kw == bytes_of("RUN"@)
    ||| kw == bytes_of("CMD"@)
    ||| kw == bytes_of("ENTRYPOINT"@)
    ||| kw == bytes_of("EXPOSE"@)
}

/// A passthrough line: led by an alphabetic keyword that is none of the
/// modeled instructions, on a single line, with no continuation marker.
pub open spec fn wf_other_line(line: Seq<u8>) -> bool {
    let k = alpha_end(line, 0);
    &&& forall|i: int| 0 <= i < line.len() ==> line[i] != NEWLINE
    &&& line.len() > 0
    &&& line.last() != BACKSLASH
    &&& k > 0
    &&& k == line.len() || is_line_space(line[k])
    &&& !known_keyword(upper_bytes(line.subrange(0, k)))
}

/// Well-formedness of a directive: what the rendering round trip is stated
/// over. Everything the system itself emits satisfies this.
pub open spec fn wf_directive(d: DirectiveModel) -> bool {
    match d {
        DirectiveModel::From { image } => wf_free_text(image),
        DirectiveModel::Run { command } => wf_free_text(command),
        DirectiveModel::Cmd { mode, tokens } => wf_payload(mode, tokens),
        DirectiveModel::Entrypoint { mode, tokens } => wf_payload(mode, tokens),
        DirectiveModel::Expose { port } => true,
        DirectiveModel::Other { line } => wf_other_line(line),
    }
}

impl Directive {
    pub fn new_from(image: Vec<u8>) -> (d: Directive)
        ensures
            d@ == (DirectiveModel::From { image: image@ }),
    {
        Directive::From { image }
    }

    pub fn new_run(command: Vec<u8>) -> (d: Directive)
        ensures
            d@ == (DirectiveModel::Run { command: command@ }),
    {
        Directive::Run { command }
    }

    pub fn new_cmd(mode: Mode, tokens: Vec<Vec<u8>>) -> (d: Directive)
        ensures
            d@ == (DirectiveModel::Cmd { mode, tokens: tokens.deep_view() }),
    {
        Directive::Cmd { mode, tokens }
    }

    pub fn new_entrypoint(mode: Mode, tokens: Vec<Vec<u8>>) -> (d: Directive)
        ensures
            d@ == (DirectiveModel::Entrypoint { mode, tokens: tokens.deep_view() }),
    {
        Directive::Entrypoint { mode, tokens }
    }

    pub fn new_expose(port: Option<u16>) -> (d: Directive)
        ensures
            d@ == (DirectiveModel::Expose { port }),
    {
        Directive::Expose { port }
    }

    pub fn new_other(line: Vec<u8>) -> (d: Directive)
        ensures
            d@ == (DirectiveModel::Other { line: line@ }),
    {
        Directive::Other { line }
    }

    pub fn is_cmd(&self) -> (r: bool)
        ensures
            r == (self@ is Cmd),
    {
        match self {
            Directive::Cmd { .. } => true,
            _ => false,
        }
    }

    pub fn is_entrypoint(&self) -> (r: bool)
        ensures
            r == (self@ is Entrypoint),
    {
        match self {
            Directive::Entrypoint { .. } => true,
            _ => false,
        }
    }

    /// A structurally equal copy.
    pub fn duplicate(&self) -> (r: Directive)
        ensures
            r@ == self@,
    {
        match self {
            Directive::From { image } => Directive::From { image: copy_bytes(image) },
            Directive::Run { command } => Directive::Run { command: copy_bytes(command) },
            Directive::Cmd { mode, tokens } => Directive::Cmd {
                mode: *mode,
                tokens: copy_tokens(tokens),
            },
            Directive::Entrypoint { mode, tokens } => Directive::Entrypoint {
                mode: *mode,
                tokens: copy_tokens(tokens),
            },
            Directive::Expose { port } => Directive::Expose { port: *port },
            Directive::Other { line } => Directive::Other { line: copy_bytes(line) },
        }
    }

    /// The canonical instruction text of this directive.
    pub fn render(&self) -> (r: Vec<u8>)
        ensures
            r@ == spec_render(self@),
    {
        match self {
            Directive::From { image } => {
                proof { reveal_strlit("FROM "); }
                let mut r = lit("FROM ");
                push_bytes(&mut r, image.as_slice());
                r
            },
            Directive::Run { command } => {
                proof { reveal_strlit("RUN "); }
                let mut r = lit("RUN ");
                push_bytes(&mut r, command.as_slice());
                r
            },
            Directive::Cmd { mode, tokens } => {
                proof { reveal_strlit("CMD "); }
                let mut r = lit("CMD ");
                let p = render_payload(*mode, tokens);
                push_bytes(&mut r, p.as_slice());
                r
            },
            Directive::Entrypoint { mode, tokens } => {
                proof { reveal_strlit("ENTRYPOINT "); }
                let mut r = lit("ENTRYPOINT ");
                let p = render_payload(*mode, tokens);
                push_bytes(&mut r, p.as_slice());
                r
            },
            Directive::Expose { port } => {
                match port {
                    Some(p) => {
                        proof { reveal_strlit("EXPOSE "); }
                let mut r = lit("EXPOSE ");
                        let digits = dec_u16(*p);
                        push_bytes(&mut r, digits.as_slice());
                        r
                    },
                    None => {
                        proof { reveal_strlit("EXPOSE"); }
                        lit("EXPOSE")
                    },
                }
            },
            Directive::Other { line } => copy_bytes(line),
        }
    }
}

pub fn copy_bytes(v: &Vec<u8>) -> (r: Vec<u8>)
    ensures
        r@ == v@,
{
    let mut r: Vec<u8> = Vec::new();
    r.extend_from_slice(v.as_slice());
    proof {
        assert(r@ =~= v@);
    }
    r
}

pub fn copy_tokens(ts: &Vec<Vec<u8>>) -> (r: Vec<Vec<u8>>)
    ensures
        r.deep_view() == ts.deep_view(),
{
    let mut r: Vec<Vec<u8>> = Vec::new();
    let n: usize = ts.len();
    let mut i: usize = 0;
    while i < n
        invariant
            n == ts@.len(),
            i <= n,
            r.deep_view() =~= ts.deep_view().subrange(0, i as int),
        decreases n - i,
    {
        proof {
            assert(r.deep_view().len() == i);
            assert(r@.len() == i);
        }
        r.push(copy_bytes(&ts[i]));
        proof {
            assert(r.deep_view() =~= ts.deep_view().subrange(0, i + 1));
        }
        i = i + 1;
    }
    proof {
        assert(ts.deep_view().subrange(0, n as int) =~= ts.deep_view());
    }
    r
}

fn render_payload(mode: Mode, tokens: &Vec<Vec<u8>>) -> (r: Vec<u8>)
    ensures
        r@ == spec_payload(mode, tokens.deep_view()),
{
    match mode {
        Mode::Shell => {
            if tokens.len() > 0 {
                copy_bytes(&tokens[0])
            } else {
                Vec::new()
            }
        },
        Mode::Exec => {
            let mut quoted: Vec<Vec<u8>> = Vec::new();
            let n: usize = tokens.len();
            let mut i: usize = 0;
            while i < n
                invariant
                    n == tokens@.len(),
                    i <= n,
                    quoted.deep_view() == quoted_tokens(tokens.deep_view().subrange(0, i as int)),
                decreases n - i,
            {
                let mut q: Vec<u8> = Vec::new();
                q.push(DQUOTE);
                push_bytes(&mut q, tokens[i].as_slice());
                q.push(DQUOTE);
                proof {
                    assert(q@ =~= spec_render_token(tokens.deep_view()[i as int]));
                    assert(quoted.deep_view().len() == i);
                    assert(quoted@.len() == i);
                }
                quoted.push(q);
                proof {
                    lemma_quoted_tokens_push(tokens.deep_view(), i as int);
                    assert(q.deep_view() =~= q@);
                    assert(quoted.deep_view() =~= quoted_tokens(
                        tokens.deep_view().subrange(0, i + 1),
                    ));
                }
                i = i + 1;
            }
            proof {
                assert(tokens.deep_view().subrange(0, n as int) =~= tokens.deep_view());
            }
            proof { reveal_strlit(", "); }
            let sep = lit(", ");
            let body = join(&quoted, &sep);
            let mut r: Vec<u8> = Vec::new();
            r.push(LBRACKET);
            push_bytes(&mut r, body.as_slice());
            r.push(RBRACKET);
            proof {
                assert(r@ =~= spec_render_array(tokens.deep_view()));
            }
            r
        },
    }
}

} // verus!

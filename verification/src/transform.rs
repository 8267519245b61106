//! The image transformer: one left-to-right filtering pass collects the last
//! `CMD`, `ENTRYPOINT` and `EXPOSE`; every other directive passes through in
//! order. The user's startup intent is merged into one command line, written
//! as a generated run script, and the fixed supervisor bootstrap sequence is
//! appended, ending with the supervisor entrypoint.
use vstd::prelude::*;

use crate::text::{bytes_of, spec_join, push_bytes, push_lit, lit, SPACE};
use crate::directive::{Mode, Directive, DirectiveModel, views, copy_bytes};
use crate::decode::{DecodeError, spec_decode, decode_dockerfile};

verus! {

/// Failure to derive a startable process from the user's Dockerfile.
#[derive(Clone, Copy, PartialEq, Eq, Structural, Debug)]
pub enum MergeError {
    /// Neither a `CMD` nor an `ENTRYPOINT` was present.
    NoStartupCommand,
}

/// What processing a whole Dockerfile can fail with.
#[derive(Clone, Copy, PartialEq, Eq, Structural, Debug)]
pub enum ProcessError {
    Decode(DecodeError),
    Merge(MergeError),
}

/// Transient accumulator of one filtering pass: the last-seen `CMD`,
/// `ENTRYPOINT` and exposed port.
pub struct TransformContext {
    pub last_cmd: Option<Directive>,
    pub last_entrypoint: Option<Directive>,
    pub exposed_port: Option<u16>,
}

pub open spec fn opt_view(o: Option<Directive>) -> Option<DirectiveModel> {
    match o {
        Option::None => Option::None,
        Option::Some(d) => Option::Some(d@),
    }
}

/// Directives the filtering pass removes from the output stream.
pub open spec fn is_removed(d: DirectiveModel) -> bool {
    d is Cmd || d is Entrypoint || d is Expose
}

/// The passthrough directives, in their original relative order.
pub open spec fn spec_filter(ds: Seq<DirectiveModel>) -> Seq<DirectiveModel>
    decreases ds.len(),
{
    if ds.len() == 0 {
        Seq::empty()
    } else {
        (if is_removed(ds[0]) {
            Seq::empty()
        } else {
            seq![ds[0]]
        }) + spec_filter(ds.drop_first())
    }
}

/// The last `CMD` of the sequence, if any.
pub open spec fn spec_last_cmd(ds: Seq<DirectiveModel>) -> Option<DirectiveModel>
    decreases ds.len(),
{
    if ds.len() == 0 {
        Option::None
    } else if ds.last() is Cmd {
        Option::Some(ds.last())
    } else {
        spec_last_cmd(ds.drop_last())
    }
}

/// The last `ENTRYPOINT` of the sequence, if any.
pub open spec fn spec_last_entrypoint(ds: Seq<DirectiveModel>) -> Option<DirectiveModel>
    decreases ds.len(),
{
    if ds.len() == 0 {
        Option::None
    } else if ds.last() is Entrypoint {
        Option::Some(ds.last())
    } else {
        spec_last_entrypoint(ds.drop_last())
    }
}

/// The port of the last `EXPOSE` of the sequence, if any.
pub open spec fn spec_last_port(ds: Seq<DirectiveModel>) -> Option<u16>
    decreases ds.len(),
{
    if ds.len() == 0 {
        Option::None
    } else if ds.last() is Expose {
        ds.last()->Expose_port
    } else {
        spec_last_port(ds.drop_last())
    }
}

/// One command line for a `CMD` / `ENTRYPOINT` payload: the shell string
/// verbatim, or the exec tokens joined by single spaces.
pub open spec fn spec_command_line(mode: Mode, tokens: Seq<Seq<u8>>) -> Seq<u8> {
    if mode == Mode::Shell {
        if tokens.len() > 0 {
            tokens[0]
        } else {
            Seq::empty()
        }
    } else {
        spec_join(tokens, seq![SPACE])
    }
}

pub open spec fn spec_line_of(d: DirectiveModel) -> Seq<u8> {
    match d {
        DirectiveModel::Cmd { mode, tokens } => spec_command_line(mode, tokens),
        DirectiveModel::Entrypoint { mode, tokens } => spec_command_line(mode, tokens),
        _ => Seq::empty(),
    }
}

/// Merge the user's startup intent: the last entrypoint and last cmd combine
/// into one resolved command line. A lone directive is used verbatim; when
/// both are present the cmd's line is appended to the entrypoint's line as
/// its default arguments. With neither present there is nothing to run.
pub open spec fn spec_merge(
    e: Option<DirectiveModel>,
    c: Option<DirectiveModel>,
) -> Result<Seq<u8>, MergeError> {
    match (e, c) {
        (Option::None, Option::None) => Err(MergeError::NoStartupCommand),
        (Option::Some(e0), Option::None) => Ok(spec_line_of(e0)),
        (Option::None, Option::Some(c0)) => Ok(spec_line_of(c0)),
        (Option::Some(e0), Option::Some(c0)) => Ok(
            spec_line_of(e0) + seq![SPACE] + spec_line_of(c0),
        ),
    }
}

/// The `RUN` command that writes `command` as an executable script at `path`.
pub open spec fn spec_script_command(cmd: Seq<u8>, path: Seq<u8>) -> Seq<u8> {
    bytes_of("/bin/sh -c \"echo -e '\"'#!/bin/sh\\n"@) + cmd + bytes_of("\\n'\"' > "@) + path
        + bytes_of("\" && chmod +x "@) + path
}

pub open spec fn spec_egress_label(egress: bool) -> Seq<u8> {
    if egress {
        bytes_of("egress-enabled"@)
    } else {
        bytes_of("egress-disabled"@)
    }
}

pub open spec fn spec_data_plane_url(egress: bool) -> Seq<u8> {
    bytes_of("https://cage-build-assets.evervault.com/runtime/latest/data-plane/"@)
        + spec_egress_label(egress)
}

/// The fixed supervisor bootstrap sequence, in its exact order: install the
/// supervisor, create the user service directory, install the generated user
/// run script, fetch and install the data plane with its own service and run
/// script, and finally the supervisor entrypoint.
pub open spec fn spec_injected(egress: bool, user_cmd: Seq<u8>) -> Seq<DirectiveModel> {
    seq![
        DirectiveModel::Run {
            command: bytes_of("apk update ; apk add runit ; rm -rf /var/cache/apk/*"@),
        },
        DirectiveModel::Run { command: bytes_of("mkdir /etc/service/user-entrypoint"@) },
        DirectiveModel::Run {
            command: spec_script_command(user_cmd, bytes_of("/etc/service/user-entrypoint/run"@)),
        },
        DirectiveModel::Run {
            command: bytes_of("wget "@) + spec_data_plane_url(egress) + bytes_of(
                " -O /data-plane && chmod +x /data-plane"@,
            ),
        },
        DirectiveModel::Run { command: bytes_of("mkdir /etc/service/data-plane"@) },
        DirectiveModel::Run {
            command: spec_script_command(
                bytes_of("exec /data-plane"@),
                bytes_of("/etc/service/data-plane/run"@),
            ),
        },
        DirectiveModel::Entrypoint {
            mode: Mode::Exec,
            tokens: seq![bytes_of("runsvdir"@), bytes_of("/etc/service"@)],
        },
    ]
}

/// The whole transformation at the model level: merge the startup intent,
/// then filtered originals followed by the injected sequence.
pub open spec fn spec_transform(
    ds: Seq<DirectiveModel>,
    egress: bool,
) -> Result<Seq<DirectiveModel>, MergeError> {
    match spec_merge(spec_last_entrypoint(ds), spec_last_cmd(ds)) {
        Err(e) => Err(e),
        Ok(cmd) => Ok(spec_filter(ds) + spec_injected(egress, cmd)),
    }
}

/// One explicit left-to-right fold: the filtered stream and the accumulator
/// of last-seen startup directives. Later `CMD` / `ENTRYPOINT` / `EXPOSE`
/// occurrences override earlier ones.
pub fn filter_directives(instructions: &Vec<Directive>) -> (r: (TransformContext, Vec<Directive>))
    ensures
        opt_view(r.0.last_cmd) == spec_last_cmd(views(instructions@)),
        opt_view(r.0.last_entrypoint) == spec_last_entrypoint(views(instructions@)),
        r.0.exposed_port == spec_last_port(views(instructions@)),
        views(r.1@) == spec_filter(views(instructions@)),
{
    let ghost all = views(instructions@);
    let n: usize = instructions.len();
    let mut kept: Vec<Directive> = Vec::new();
    let mut ctx = TransformContext { last_cmd: None, last_entrypoint: None, exposed_port: None };
    let mut i: usize = 0;
    proof {
        assert(all.subrange(0, 0) =~= Seq::<DirectiveModel>::empty());
        assert(views(kept@) =~= Seq::<DirectiveModel>::empty());
    }
    while i < n
        invariant
            i <= n,
            n == instructions@.len(),
            all == views(instructions@),
            opt_view(ctx.last_cmd) == spec_last_cmd(all.subrange(0, i as int)),
            opt_view(ctx.last_entrypoint) == spec_last_entrypoint(all.subrange(0, i as int)),
            ctx.exposed_port == spec_last_port(all.subrange(0, i as int)),
            views(kept@) == spec_filter_prefix(all, i as int),
        decreases n - i,
    {
        let d = &instructions[i];
        proof {
            assert(all.subrange(0, i + 1).drop_last() =~= all.subrange(0, i as int));
            assert(all.subrange(0, i + 1).last() == all[i as int]);
            assert(all[i as int] == instructions@[i as int]@);
            lemma_spec_filter_prefix_step(all, i as int);
        }
        if d.is_cmd() {
            ctx.last_cmd = Some(d.duplicate());
        } else if d.is_entrypoint() {
            ctx.last_entrypoint = Some(d.duplicate());
        } else {
            let is_expose = match d {
                Directive::Expose { .. } => true,
                _ => false,
            };
            if is_expose {
                let p = match d {
                    Directive::Expose { port } => *port,
                    _ => None,
                };
                ctx.exposed_port = p;
            } else {
                let ghost pre = kept@;
                kept.push(d.duplicate());
                proof {
                    assert(kept@.drop_last() =~= pre);
                    assert(views(kept@) =~= views(pre) + seq![all[i as int]]);
                }
            }
        }
        i = i + 1;
    }
    proof {
        assert(all.subrange(0, n as int) =~= all);
    }
    (ctx, kept)
}

/// The filtered stream of the first `i` directives.
pub open spec fn spec_filter_prefix(ds: Seq<DirectiveModel>, i: int) -> Seq<DirectiveModel> {
    spec_filter(ds.subrange(0, i))
}

proof fn lemma_spec_filter_snoc(ds: Seq<DirectiveModel>)
    requires
        ds.len() >= 1,
    ensures
        spec_filter(ds) == spec_filter(ds.drop_last()) + (if is_removed(ds.last()) {
            Seq::<DirectiveModel>::empty()
        } else {
            seq![ds.last()]
        }),
    decreases ds.len(),
{
    if ds.len() == 1 {
        assert(ds.drop_last() =~= Seq::<DirectiveModel>::empty());
        assert(ds.drop_first() =~= Seq::<DirectiveModel>::empty());
        assert(spec_filter(ds) =~= spec_filter(ds.drop_last()) + (if is_removed(ds.last()) {
            Seq::<DirectiveModel>::empty()
        } else {
            seq![ds.last()]
        }));
    } else {
        lemma_spec_filter_snoc(ds.drop_first());
        assert(ds.drop_first().drop_last() =~= ds.drop_last().drop_first());
        assert(ds.drop_first().last() == ds.last());
        assert(ds.drop_last().len() >= 1);
        assert(ds.drop_last()[0] == ds[0]);
        assert(spec_filter(ds) =~= spec_filter(ds.drop_last()) + (if is_removed(ds.last()) {
            Seq::<DirectiveModel>::empty()
        } else {
            seq![ds.last()]
        }));
    }
}

proof fn lemma_spec_filter_prefix_step(ds: Seq<DirectiveModel>, i: int)
    requires
        0 <= i < ds.len(),
    ensures
        spec_filter_prefix(ds, i + 1) == spec_filter_prefix(ds, i) + (if is_removed(ds[i]) {
            Seq::<DirectiveModel>::empty()
        } else {
            seq![ds[i]]
        }),
{
    let pre = ds.subrange(0, i + 1);
    lemma_spec_filter_snoc(pre);
    assert(pre.drop_last() =~= ds.subrange(0, i));
    assert(pre.last() == ds[i]);
}

/// The exec command line of a `CMD` / `ENTRYPOINT` directive.
pub fn line_of(d: &Directive) -> (r: Vec<u8>)
    ensures
        r@ == spec_line_of(d@),
{
    match d {
        Directive::Cmd { mode, tokens } => command_line(*mode, tokens),
        Directive::Entrypoint { mode, tokens } => command_line(*mode, tokens),
        _ => Vec::new(),
    }
}

fn command_line(mode: Mode, tokens: &Vec<Vec<u8>>) -> (r: Vec<u8>)
    ensures
        r@ == spec_command_line(mode, tokens.deep_view()),
{
    match mode {
        Mode::Shell => {
            if tokens.len() > 0 {
                copy_bytes(&tokens[0])
            } else {
                Vec::new()
            }
        },
        Mode::Exec => {
            let mut sep: Vec<u8> = Vec::new();
            sep.push(SPACE);
            proof {
                assert(sep@ =~= seq![SPACE]);
            }
            crate::text::join(tokens, &sep)
        },
    }
}

/// Combine the last entrypoint and last cmd into one resolved command line;
/// fails when neither is present (there is nothing to run).
pub fn create_combined_docker_entrypoint(
    entrypoint: &Option<Directive>,
    cmd: &Option<Directive>,
) -> (r: Result<Vec<u8>, MergeError>)
    ensures
        match (r, spec_merge(opt_view(*entrypoint), opt_view(*cmd))) {
            (Ok(v), Ok(m)) => v@ == m,
            (Err(e1), Err(e2)) => e1 == e2,
            _ => false,
        },
{
    match (entrypoint, cmd) {
        (None, None) => Err(MergeError::NoStartupCommand),
        (Some(e0), None) => Ok(line_of(e0)),
        (None, Some(c0)) => Ok(line_of(c0)),
        (Some(e0), Some(c0)) => {
            let mut r = line_of(e0);
            r.push(SPACE);
            let c_line = line_of(c0);
            push_bytes(&mut r, c_line.as_slice());
            proof {
                assert(r@ =~= spec_line_of(e0@) + seq![SPACE] + spec_line_of(c0@));
            }
            Ok(r)
        },
    }
}

/// The shell command that writes `command` to `path` as an executable script.
pub fn write_command_to_script(command: &[u8], path: &[u8]) -> (r: Vec<u8>)
    ensures
        r@ == spec_script_command(command@, path@),
{
    proof {
        reveal_strlit("/bin/sh -c \"echo -e '\"'#!/bin/sh\\n");
        reveal_strlit("\\n'\"' > ");
        reveal_strlit("\" && chmod +x ");
    }
    let mut r: Vec<u8> = Vec::new();
    push_lit(&mut r, "/bin/sh -c \"echo -e '\"'#!/bin/sh\\n");
    push_bytes(&mut r, command);
    push_lit(&mut r, "\\n'\"' > ");
    push_bytes(&mut r, path);
    push_lit(&mut r, "\" && chmod +x ");
    push_bytes(&mut r, path);
    r
}

fn injected_directives(egress_enabled: bool, user_cmd: &Vec<u8>) -> (r: Vec<Directive>)
    ensures
        views(r@) == spec_injected(egress_enabled, user_cmd@),
{
    proof {
        reveal_strlit("apk update ; apk add runit ; rm -rf /var/cache/apk/*");
        reveal_strlit("mkdir /etc/service/user-entrypoint");
        reveal_strlit("/etc/service/user-entrypoint/run");
        reveal_strlit("wget ");
        reveal_strlit("https://cage-build-assets.evervault.com/runtime/latest/data-plane/");
        reveal_strlit("egress-enabled");
        reveal_strlit("egress-disabled");
        reveal_strlit(" -O /data-plane && chmod +x /data-plane");
        reveal_strlit("mkdir /etc/service/data-plane");
        reveal_strlit("exec /data-plane");
        reveal_strlit("/etc/service/data-plane/run");
        reveal_strlit("runsvdir");
        reveal_strlit("/etc/service");
    }
    let mut out: Vec<Directive> = Vec::new();
    out.push(Directive::new_run(lit("apk update ; apk add runit ; rm -rf /var/cache/apk/*")));
    out.push(Directive::new_run(lit("mkdir /etc/service/user-entrypoint")));
    let user_path = lit("/etc/service/user-entrypoint/run");
    out.push(
        Directive::new_run(write_command_to_script(user_cmd.as_slice(), user_path.as_slice())),
    );
    let mut wget: Vec<u8> = lit("wget ");
    push_lit(&mut wget, "https://cage-build-assets.evervault.com/runtime/latest/data-plane/");
    if egress_enabled {
        push_lit(&mut wget, "egress-enabled");
    } else {
        push_lit(&mut wget, "egress-disabled");
    }
    push_lit(&mut wget, " -O /data-plane && chmod +x /data-plane");
    proof {
        assert(wget@ =~= bytes_of("wget "@) + spec_data_plane_url(egress_enabled) + bytes_of(
            " -O /data-plane && chmod +x /data-plane"@,
        ));
    }
    out.push(Directive::new_run(wget));
    out.push(Directive::new_run(lit("mkdir /etc/service/data-plane")));
    let dp_cmd = lit("exec /data-plane");
    let dp_path = lit("/etc/service/data-plane/run");
    out.push(Directive::new_run(write_command_to_script(dp_cmd.as_slice(), dp_path.as_slice())));
    let mut tokens: Vec<Vec<u8>> = Vec::new();
    tokens.push(lit("runsvdir"));
    tokens.push(lit("/etc/service"));
    proof {
        assert(tokens.deep_view() =~~= seq![bytes_of("runsvdir"@), bytes_of("/etc/service"@)]);
    }
    out.push(Directive::new_entrypoint(Mode::Exec, tokens));
    proof {
        assert(views(out@) =~= spec_injected(egress_enabled, user_cmd@));
    }
    out
}

/// Transform a decoded instruction sequence into the supervised image
/// definition. The output is exactly the filtered originals, in their
/// original order, followed by the fixed injected sequence; it fails if and
/// only if the input holds neither a `CMD` nor an `ENTRYPOINT`.
pub fn transform(instructions: &Vec<Directive>, egress_enabled: bool) -> (r: Result<
    Vec<Directive>,
    MergeError,
>)
    ensures
        match (r, spec_transform(views(instructions@), egress_enabled)) {
            (Ok(out), Ok(ms)) => views(out@) == ms,
            (Err(e1), Err(e2)) => e1 == e2,
            _ => false,
        },
        r is Err <==> spec_last_cmd(views(instructions@)) is None && spec_last_entrypoint(
            views(instructions@),
        ) is None,
{
    let (ctx, kept) = filter_directives(instructions);
    let merged = match create_combined_docker_entrypoint(&ctx.last_entrypoint, &ctx.last_cmd) {
        Ok(m) => m,
        Err(e) => {
            return Err(e);
        },
    };
    let injected = injected_directives(egress_enabled, &merged);
    let mut out = kept;
    let n: usize = injected.len();
    let mut i: usize = 0;
    proof {
        assert(views(injected@).subrange(0, 0) =~= Seq::<DirectiveModel>::empty());
        assert(views(out@) + views(injected@).subrange(0, 0) =~= views(out@));
    }
    while i < n
        invariant
            i <= n,
            n == injected@.len(),
            views(out@) == spec_filter(views(instructions@)) + views(injected@).subrange(
                0,
                i as int,
            ),
        decreases n - i,
    {
        let ghost pre = out@;
        out.push(injected[i].duplicate());
        proof {
            assert(out@.drop_last() =~= pre);
            assert(views(out@) =~= views(pre) + seq![views(injected@)[i as int]]);
            assert(views(injected@)[i as int] == injected@[i as int]@);
            assert(views(pre) + seq![views(injected@)[i as int]] =~= spec_filter(
                views(instructions@),
            ) + views(injected@).subrange(0, i + 1));
        }
        i = i + 1;
    }
    proof {
        assert(views(injected@).subrange(0, n as int) =~= views(injected@));
    }
    Ok(out)
}

/// Decode a Dockerfile source and transform it in one step.
pub fn process_dockerfile(src: &[u8], enable_egress: bool) -> (r: Result<
    Vec<Directive>,
    ProcessError,
>)
    ensures
        match (r, spec_decode(src@)) {
            (Err(ProcessError::Decode(e1)), Err(e2)) => e1 == e2,
            (Err(ProcessError::Merge(e1)), Ok(ds)) => spec_transform(ds, enable_egress) == Err::<
                Seq<DirectiveModel>,
                _,
            >(e1),
            (Ok(out), Ok(ds)) => spec_transform(ds, enable_egress) == Ok::<_, MergeError>(
                views(out@),
            ),
            _ => false,
        },
{
    let decoded = match crate::decode::decode_dockerfile(src) {
        Ok(ds) => ds,
        Err(e) => {
            return Err(ProcessError::Decode(e));
        },
    };
    match transform(&decoded, enable_egress) {
        Ok(out) => Ok(out),
        Err(e) => Err(ProcessError::Merge(e)),
    }
}

} // verus!

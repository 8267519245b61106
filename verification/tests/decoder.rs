use cage::decode::{DecodeError, DockerfileDecoder, decode_dockerfile, parse_line};
use cage::directive::{Directive, Mode};

fn render_str(d: &Directive) -> String {
    String::from_utf8(d.render()).unwrap()
}

#[test]
fn test_decode_simple_lines() {
    let src = b"FROM alpine\nRUN touch x\n";
    let ds = decode_dockerfile(src).unwrap();
    assert_eq!(ds.len(), 2);
    assert_eq!(render_str(&ds[0]), "FROM alpine");
    assert_eq!(render_str(&ds[1]), "RUN touch x");
}

#[test]
fn test_decode_exec_form() {
    let src = b"ENTRYPOINT [\"sh\", \"/hello-script\"]";
    let ds = decode_dockerfile(src).unwrap();
    assert_eq!(ds.len(), 1);
    match &ds[0] {
        Directive::Entrypoint { mode, tokens } => {
            assert_eq!(*mode, Mode::Exec);
            assert_eq!(tokens.len(), 2);
            assert_eq!(tokens[0], b"sh".to_vec());
            assert_eq!(tokens[1], b"/hello-script".to_vec());
        }
        other => panic!("expected entrypoint, got {:?}", other),
    }
}

#[test]
fn test_decode_shell_form() {
    let src = b"CMD echo hello world";
    let ds = decode_dockerfile(src).unwrap();
    match &ds[0] {
        Directive::Cmd { mode, tokens } => {
            assert_eq!(*mode, Mode::Shell);
            assert_eq!(tokens.len(), 1);
            assert_eq!(tokens[0], b"echo hello world".to_vec());
        }
        other => panic!("expected cmd, got {:?}", other),
    }
}

#[test]
fn test_decode_case_insensitive_keyword() {
    let ds = decode_dockerfile(b"from alpine").unwrap();
    assert_eq!(render_str(&ds[0]), "FROM alpine");
}

#[test]
fn test_decode_passthrough_is_verbatim() {
    let ds = decode_dockerfile(b"COPY . /app\nWORKDIR /app").unwrap();
    assert_eq!(ds.len(), 2);
    assert_eq!(render_str(&ds[0]), "COPY . /app");
    assert_eq!(render_str(&ds[1]), "WORKDIR /app");
}

#[test]
fn test_decode_skips_blanks_and_comments() {
    let src = b"# build stage\n\n   \nFROM alpine\n  # done\n";
    let ds = decode_dockerfile(src).unwrap();
    assert_eq!(ds.len(), 1);
    assert_eq!(render_str(&ds[0]), "FROM alpine");
}

#[test]
fn test_decode_joins_continuation_lines() {
    let src = b"RUN touch a;\\\n    echo b\n";
    let ds = decode_dockerfile(src).unwrap();
    assert_eq!(ds.len(), 1);
    assert_eq!(render_str(&ds[0]), "RUN touch a;    echo b");
}

#[test]
fn test_decode_unterminated_quote() {
    let r = decode_dockerfile(b"CMD [\"sh");
    assert_eq!(r.unwrap_err(), DecodeError::UnterminatedQuote);
}

#[test]
fn test_decode_malformed_exec_form() {
    let r = decode_dockerfile(b"CMD [\"a\" junk]");
    assert_eq!(r.unwrap_err(), DecodeError::MalformedExecForm);
    let r2 = decode_dockerfile(b"CMD [\"a\"");
    assert_eq!(r2.unwrap_err(), DecodeError::MalformedExecForm);
}

#[test]
fn test_decode_empty_instruction() {
    let r = decode_dockerfile(b"1abc x");
    assert_eq!(r.unwrap_err(), DecodeError::EmptyInstruction);
}

#[test]
fn test_decode_unknown_instruction_token() {
    let r = decode_dockerfile(b"FROM=alpine");
    assert_eq!(r.unwrap_err(), DecodeError::UnknownInstruction);
}

#[test]
fn test_decode_expose_ports() {
    let ds = decode_dockerfile(b"EXPOSE 8080\nEXPOSE http\nEXPOSE 70000\nCMD run").unwrap();
    assert!(matches!(ds[0], Directive::Expose { port: Some(8080) }));
    assert!(matches!(ds[1], Directive::Expose { port: None }));
    assert!(matches!(ds[2], Directive::Expose { port: None }));
}

#[test]
fn test_decoder_entry_point() {
    let ds = DockerfileDecoder::decode_dockerfile_from_src(b"FROM alpine").unwrap();
    assert_eq!(ds.len(), 1);
}

#[test]
fn test_render_decode_round_trip() {
    let ds = vec![
        Directive::new_from(b"alpine".to_vec()),
        Directive::new_run(b"touch /x".to_vec()),
        Directive::new_cmd(Mode::Shell, vec![b"echo hi".to_vec()]),
        Directive::new_entrypoint(Mode::Exec, vec![b"sh".to_vec(), b"/run".to_vec()]),
        Directive::new_expose(Some(443)),
        Directive::new_other(b"WORKDIR /srv".to_vec()),
    ];
    let text = cage::render::render_dockerfile(&ds);
    let back = decode_dockerfile(text.as_slice()).unwrap();
    assert_eq!(back.len(), ds.len());
    for (a, b) in ds.iter().zip(back.iter()) {
        assert_eq!(a.render(), b.render());
    }
}

#[test]
fn test_parse_line_keeps_quoted_commas() {
    let d = parse_line(b"CMD [\"a,b\", \"c d\"]").unwrap();
    match d {
        Directive::Cmd { mode, tokens } => {
            assert_eq!(mode, Mode::Exec);
            assert_eq!(tokens, vec![b"a,b".to_vec(), b"c d".to_vec()]);
        }
        other => panic!("expected cmd, got {:?}", other),
    }
}

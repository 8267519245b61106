use cage::decode::decode_dockerfile;
use cage::directive::{Directive, Mode};
use cage::transform::{
    MergeError, ProcessError, create_combined_docker_entrypoint, filter_directives,
    process_dockerfile, transform, write_command_to_script,
};

fn render_str(d: &Directive) -> String {
    String::from_utf8(d.render()).unwrap()
}

#[test]
fn test_process_dockerfile() {
    let sample_dockerfile_contents = r#"FROM alpine

RUN touch /hello-script;\
    /bin/sh -c "echo -e '"'#!/bin/sh\nwhile true; do echo "hello"; sleep 2; done;\n'"' > /hello-script"

ENTRYPOINT ["sh", "/hello-script"]"#;
    let readable_contents = sample_dockerfile_contents.as_bytes();

    let processed_file = process_dockerfile(readable_contents, false);
    assert_eq!(processed_file.is_ok(), true);
    let processed_file = processed_file.unwrap();

    let expected_output_contents = r#"FROM alpine
RUN touch /hello-script;\
    /bin/sh -c "echo -e '"'#!/bin/sh\nwhile true; do echo "hello"; sleep 2; done;\n'"' > /hello-script"
RUN apk update ; apk add runit ; rm -rf /var/cache/apk/*
RUN mkdir /etc/service/user-entrypoint
RUN /bin/sh -c "echo -e '"'#!/bin/sh\nsh /hello-script\n'"' > /etc/service/user-entrypoint/run" && chmod +x /etc/service/user-entrypoint/run
RUN wget https://cage-build-assets.evervault.com/runtime/latest/data-plane/egress-disabled -O /data-plane && chmod +x /data-plane
RUN mkdir /etc/service/data-plane
RUN /bin/sh -c "echo -e '"'#!/bin/sh\nexec /data-plane\n'"' > /etc/service/data-plane/run" && chmod +x /etc/service/data-plane/run
ENTRYPOINT ["runsvdir", "/etc/service"]
"#;

    let expected_directives = decode_dockerfile(expected_output_contents.as_bytes()).unwrap();

    assert_eq!(expected_directives.len(), processed_file.len());
    for (expected_directive, processed_directive) in
        expected_directives.iter().zip(processed_file.iter())
    {
        assert_eq!(render_str(expected_directive), render_str(processed_directive));
    }
}

#[test]
fn test_last_wins_for_cmd_and_entrypoint() {
    let src = b"FROM alpine\nCMD old-cmd\nENTRYPOINT [\"first\"]\nCMD [\"new\", \"cmd\"]\nENTRYPOINT [\"second\"]\n";
    let ds = decode_dockerfile(src).unwrap();
    let (ctx, kept) = filter_directives(&ds);
    match &ctx.last_cmd {
        Some(Directive::Cmd { mode, tokens }) => {
            assert_eq!(*mode, Mode::Exec);
            assert_eq!(*tokens, vec![b"new".to_vec(), b"cmd".to_vec()]);
        }
        other => panic!("expected the later cmd, got {:?}", other),
    }
    match &ctx.last_entrypoint {
        Some(Directive::Entrypoint { mode, tokens }) => {
            assert_eq!(*mode, Mode::Exec);
            assert_eq!(*tokens, vec![b"second".to_vec()]);
        }
        other => panic!("expected the later entrypoint, got {:?}", other),
    }
    assert_eq!(kept.len(), 1);
    assert_eq!(render_str(&kept[0]), "FROM alpine");

    // the merged command line uses the last occurrences only
    let merged = create_combined_docker_entrypoint(&ctx.last_entrypoint, &ctx.last_cmd).unwrap();
    assert_eq!(String::from_utf8(merged).unwrap(), "second new cmd");
}

#[test]
fn test_last_expose_wins() {
    let src = b"FROM a\nEXPOSE 80\nEXPOSE 8443\nCMD run\n";
    let ds = decode_dockerfile(src).unwrap();
    let (ctx, _) = filter_directives(&ds);
    assert_eq!(ctx.exposed_port, Some(8443));
}

#[test]
fn test_injection_ordering() {
    let src = b"FROM alpine\nCOPY . /app\nRUN make\nEXPOSE 80\nCMD [\"./app\"]\n";
    let ds = decode_dockerfile(src).unwrap();
    let out = transform(&ds, false).unwrap();
    // passthrough originals first, in original order
    assert_eq!(render_str(&out[0]), "FROM alpine");
    assert_eq!(render_str(&out[1]), "COPY . /app");
    assert_eq!(render_str(&out[2]), "RUN make");
    // then the fixed injected sequence
    assert_eq!(out.len(), 3 + 7);
    assert_eq!(
        render_str(&out[3]),
        "RUN apk update ; apk add runit ; rm -rf /var/cache/apk/*"
    );
    assert_eq!(render_str(&out[4]), "RUN mkdir /etc/service/user-entrypoint");
    assert!(render_str(&out[5]).starts_with("RUN /bin/sh -c \"echo -e "));
    assert!(render_str(&out[6]).starts_with("RUN wget "));
    assert_eq!(render_str(&out[7]), "RUN mkdir /etc/service/data-plane");
    assert!(render_str(&out[8]).contains("exec /data-plane"));
    // the final directive always boots the supervisor
    assert_eq!(render_str(&out[9]), "ENTRYPOINT [\"runsvdir\", \"/etc/service\"]");
}

#[test]
fn test_no_startup_command_error() {
    let src = b"FROM alpine\nRUN touch x\n";
    let ds = decode_dockerfile(src).unwrap();
    let r = transform(&ds, false);
    assert_eq!(r.unwrap_err(), MergeError::NoStartupCommand);

    let r2 = process_dockerfile(src, true);
    assert_eq!(r2.unwrap_err(), ProcessError::Merge(MergeError::NoStartupCommand));
}

#[test]
fn test_egress_label_selection() {
    let src = b"FROM alpine\nCMD run\n";
    let ds = decode_dockerfile(src).unwrap();
    let with_egress = transform(&ds, true).unwrap();
    let without = transform(&ds, false).unwrap();
    let wget_on = render_str(&with_egress[4]);
    let wget_off = render_str(&without[4]);
    assert_eq!(
        wget_on,
        "RUN wget https://cage-build-assets.evervault.com/runtime/latest/data-plane/egress-enabled -O /data-plane && chmod +x /data-plane"
    );
    assert_eq!(
        wget_off,
        "RUN wget https://cage-build-assets.evervault.com/runtime/latest/data-plane/egress-disabled -O /data-plane && chmod +x /data-plane"
    );
}

#[test]
fn test_write_command_to_script_exact() {
    let s = write_command_to_script(b"sh /hello-script", b"/etc/service/user-entrypoint/run");
    assert_eq!(
        String::from_utf8(s).unwrap(),
        r#"/bin/sh -c "echo -e '"'#!/bin/sh\nsh /hello-script\n'"' > /etc/service/user-entrypoint/run" && chmod +x /etc/service/user-entrypoint/run"#
    );
}

#[test]
fn test_merge_single_directives() {
    let e = Some(Directive::new_entrypoint(
        Mode::Exec,
        vec![b"sh".to_vec(), b"/hello-script".to_vec()],
    ));
    let merged = create_combined_docker_entrypoint(&e, &None).unwrap();
    assert_eq!(String::from_utf8(merged).unwrap(), "sh /hello-script");

    let c = Some(Directive::new_cmd(Mode::Shell, vec![b"npm start".to_vec()]));
    let merged_c = create_combined_docker_entrypoint(&None, &c).unwrap();
    assert_eq!(String::from_utf8(merged_c).unwrap(), "npm start");

    let none = create_combined_docker_entrypoint(&None, &None);
    assert_eq!(none.unwrap_err(), MergeError::NoStartupCommand);
}

#[test]
fn test_end_to_end_build_scenario() {
    let src = b"FROM alpine\nRUN touch x\nENTRYPOINT [\"sh\",\"/hello-script\"]";
    let out = process_dockerfile(src, false).unwrap();
    let lines: Vec<String> = out.iter().map(render_str).collect();
    // original passthrough lines unchanged, in order
    assert_eq!(lines[0], "FROM alpine");
    assert_eq!(lines[1], "RUN touch x");
    // supervisor install and service directories
    assert_eq!(lines[2], "RUN apk update ; apk add runit ; rm -rf /var/cache/apk/*");
    assert_eq!(lines[3], "RUN mkdir /etc/service/user-entrypoint");
    // the generated run script executes the user's entrypoint
    assert_eq!(
        lines[4],
        r#"RUN /bin/sh -c "echo -e '"'#!/bin/sh\nsh /hello-script\n'"' > /etc/service/user-entrypoint/run" && chmod +x /etc/service/user-entrypoint/run"#
    );
    // the data-plane fetch references the egress-disabled asset label
    assert!(lines[5].contains("data-plane/egress-disabled"));
    assert!(lines[5].contains("chmod +x /data-plane"));
    assert_eq!(lines[6], "RUN mkdir /etc/service/data-plane");
    assert!(lines[7].contains("exec /data-plane"));
    // the image always boots into the supervisor
    assert_eq!(lines[8], "ENTRYPOINT [\"runsvdir\", \"/etc/service\"]");
    assert_eq!(lines.len(), 9);
}

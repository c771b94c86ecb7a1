use notifier::email::{
    delivery_outcome, parse_email_address, parse_mailbox, render_template,
    EmailTemplate, Mailer, NotificationError,
};

fn invalid_address_message(r: Result<notifier::email::Mailbox, NotificationError>) -> String {
    match r {
        Err(NotificationError::InvalidAddress(m)) => m,
        other => panic!("expected an address error, got {:?}", other),
    }
}

fn template_message(r: Result<EmailTemplate, NotificationError>) -> String {
    match r {
        Err(NotificationError::InvalidTemplate(m)) => m,
        other => panic!("expected a template error, got {:?}", other),
    }
}

fn params(ps: &[(&str, &str)]) -> Vec<(String, String)> {
    ps.iter().map(|(k, v)| (k.to_string(), v.to_string())).collect()
}

#[test]
fn address_with_name() {
    let m = parse_email_address("Jane Doe <jane@example.com>").ok().unwrap();
    assert_eq!(m.name.as_deref(), Some("Jane Doe"));
    assert_eq!(m.address, "jane@example.com");
}

#[test]
fn bare_address() {
    let m = parse_email_address("jane@example.com").ok().unwrap();
    assert!(m.name.is_none());
    assert_eq!(m.address, "jane@example.com");
}

#[test]
fn not_an_address() {
    assert_eq!(
        invalid_address_message(parse_email_address("not-an-email")),
        "Invalid email: 'not-an-email'"
    );
}

#[test]
fn address_text_is_trimmed() {
    let m = parse_email_address("  Bob   <bob.smith+tag@mail.example.org>  ").ok().unwrap();
    assert_eq!(m.name.as_deref(), Some("Bob"));
    assert_eq!(m.address, "bob.smith+tag@mail.example.org");
    let m = parse_email_address("  a_b@x-y.io\n").ok().unwrap();
    assert!(m.name.is_none());
    assert_eq!(m.address, "a_b@x-y.io");
}

#[test]
fn name_is_the_run_before_the_last_open_bracket() {
    let m = parse_email_address("a<b<x@y.z>").ok().unwrap();
    assert_eq!(m.name.as_deref(), Some("b"));
    assert_eq!(m.address, "x@y.z");
}

#[test]
fn malformed_addresses_rejected() {
    for bad in [
        "",
        "@example.com",
        "jane@",
        "jane@example",
        "jane@.example.com",
        "jane@example.",
        "<jane@example.com>",
        "Jane <jane@example.com",
        "Jane <<jane@example.com>",
        "jane@@example.com",
        "ja ne@example.com",
        "Jane <jane@exa_mple.com>",
    ] {
        let r = parse_email_address(bad);
        assert_eq!(invalid_address_message(r), format!("Invalid email: '{}'", bad));
    }
}

#[test]
fn error_quotes_untrimmed_input() {
    assert_eq!(
        invalid_address_message(parse_mailbox("x", " x ")),
        "Invalid email: ' x '"
    );
}

#[test]
fn render_substitutes_parameters() {
    let t = EmailTemplate::new("Hi {{name}}", "Bye {{name}}");
    let (subject, body) = t.render(&params(&[("name", "Bob")])).ok().unwrap();
    assert_eq!(subject, "Hi Bob");
    assert_eq!(body, "Bye Bob");
}

#[test]
fn render_without_parameters_keeps_text() {
    let t = EmailTemplate::new("Hi {{name}}", "Bye {{name}}");
    let (subject, body) = t.render(&Vec::new()).ok().unwrap();
    assert_eq!(subject, "Hi {{name}}");
    assert_eq!(body, "Bye {{name}}");
}

#[test]
fn render_never_rescans_and_keeps_unknown() {
    let r = render_template(
        "{{a}} {{b}} {{c}}",
        &params(&[("a", "{{b}}"), ("b", "x")]),
    );
    assert_eq!(r, "{{b}} x {{c}}");
    let r = render_template("{{a}}", &params(&[("b", "x"), ("a", "{{b}}")]));
    assert_eq!(r, "{{b}}");
    let r = render_template("{{a}}", &params(&[("a", "{{b}}"), ("b", "X")]));
    assert_eq!(r, "{{b}}");
}

#[test]
fn render_ignores_parameter_order_and_unused_keys() {
    let t = "x{{a}}y{{b}}{{a}}";
    let one = render_template(t, &params(&[("a", "1"), ("b", "2")]));
    let two = render_template(t, &params(&[("b", "2"), ("a", "1")]));
    assert_eq!(one, "x1y21");
    assert_eq!(one, two);
    let r = render_template("{{a}}", &params(&[("a", "{{k}}"), ("k", "X")]));
    assert_eq!(r, "{{k}}");
    assert_eq!(render_template("{{a}", &params(&[("a", "1")])), "{{a}");
}

#[test]
fn template_file_parsed() {
    let t = EmailTemplate::parse("  Subject {{name}}  \r\n\r\nLine one\nLine {{x}}\n").ok().unwrap();
    assert_eq!(t.subject, "Subject {{name}}");
    assert_eq!(t.body, "Line one\nLine {{x}}\n");
    let t = EmailTemplate::parse("Only subject").ok().unwrap();
    assert_eq!(t.subject, "Only subject");
    assert_eq!(t.body, "");
}

#[test]
fn template_second_line_must_be_empty() {
    assert_eq!(
        template_message(EmailTemplate::parse("Subject\nnot empty\nbody")),
        "The second line must be empty"
    );
}

#[test]
fn template_first_line_must_be_subject() {
    assert_eq!(
        template_message(EmailTemplate::parse("   \n\nbody")),
        "The first line must be a message Subject"
    );
    assert_eq!(
        template_message(EmailTemplate::parse("")),
        "The first line must be a message Subject"
    );
}

#[test]
fn template_parts_checked() {
    assert!(EmailTemplate::from_parts("S", "\r\n", "b").is_ok());
    assert_eq!(
        template_message(EmailTemplate::from_parts("", "", "b")),
        "The first line must be a message Subject"
    );
    assert_eq!(
        template_message(EmailTemplate::from_parts("S", " \n", "b")),
        "The second line must be empty"
    );
}

#[test]
fn mailer_from_valid_addresses_sends() {
    let mailer = Mailer::new("Notifier <bot@example.com>", "owner@example.com").ok().unwrap();
    assert_eq!(mailer.from.name.as_deref(), Some("Notifier"));
    assert_eq!(mailer.to.address, "owner@example.com");
    let msg = mailer.compose("Done", "All good");
    assert_eq!(msg.from.address, "bot@example.com");
    assert!(msg.to.name.is_none());
    assert_eq!(msg.subject, "Done");
    assert_eq!(msg.body, "All good");
    assert!(delivery_outcome(Ok(())).is_ok());
}

#[test]
fn mailer_rejects_first_bad_address() {
    match Mailer::new("bad", "also bad") {
        Err(NotificationError::InvalidAddress(m)) => assert_eq!(m, "Invalid email: 'bad'"),
        other => panic!("unexpected {:?}", other),
    }
    match Mailer::new("a@b.cd", "also bad") {
        Err(NotificationError::InvalidAddress(m)) => assert_eq!(m, "Invalid email: 'also bad'"),
        other => panic!("unexpected {:?}", other),
    }
}

#[test]
fn template_prepares_message() {
    let mailer = Mailer::new("bot@example.com", "Me <me@example.com>").ok().unwrap();
    let t = EmailTemplate::new("Torrent {{name}} done", "{{name}} finished");
    let msg = t.prepare(&mailer, &params(&[("name", "ubuntu.iso")]));
    assert_eq!(msg.subject, "Torrent ubuntu.iso done");
    assert_eq!(msg.body, "ubuntu.iso finished");
    assert_eq!(msg.to.name.as_deref(), Some("Me"));
}

#[test]
fn delivery_failure_reported() {
    match delivery_outcome(Err("refused".to_string())) {
        Err(NotificationError::Delivery(m)) => assert_eq!(m, "refused"),
        other => panic!("unexpected {:?}", other),
    }
    let e = NotificationError::Delivery("x".to_string());
    assert_eq!(e.message(), "x");
}

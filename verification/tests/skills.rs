use otogo::markdown::{code_lines, has_unclosed_fence, invocations};

fn v(text: &str) -> Vec<String> {
    invocations(text).into_iter().collect()
}

#[test]
fn a_fenced_block_yields_its_verbs() {
    let got = v("```bash\notogo open req\notogo close --outcome improved\n```\n");
    assert_eq!(got, vec!["close", "open"]);
}

#[test]
fn an_inline_span_yields_its_verb() {
    assert_eq!(v("First run `otogo brief` every session.\n"), vec!["brief"]);
}

#[test]
fn prose_without_backticks_is_not_a_command() {
    assert!(v("Then otogo verify decides whether it worked.\n").is_empty());
}

#[test]
fn a_fence_and_an_inline_span_in_one_document_both_count() {
    let doc = "Run `otogo status` first.\n\n```sh\notogo drive\n```\n\nThen `otogo score`.\n";
    assert_eq!(v(doc), vec!["drive", "score", "status"]);
}

#[test]
fn a_verb_is_read_up_to_its_flags_or_punctuation() {
    assert_eq!(v("`otogo close --outcome improved`\n"), vec!["close"]);
    assert_eq!(v("`otogo verify`.\n"), vec!["verify"]);
}

#[test]
fn a_trailing_otogo_names_no_verb() {
    assert!(v("the tool is `otogo`\n").is_empty());
    assert!(v("```\notogo\n```\n").is_empty());
}

#[test]
fn an_indented_code_block_counts() {
    assert_eq!(
        v("Example:\n\n    otogo classify --layer domain\n\n"),
        vec!["classify"]
    );
}

#[test]
fn a_tilde_fence_counts() {
    assert_eq!(v("~~~bash\notogo abort \"reason\"\n~~~\n"), vec!["abort"]);
}

#[test]
fn an_unclosed_fence_runs_to_the_end_of_the_document() {
    let doc = "```bash\notogo open req\n\nLater prose mentions otogo nonsense freely.\n";
    assert_eq!(v(doc), vec!["nonsense", "open"]);
}

#[test]
fn an_unclosed_fence_is_reported_on_its_own() {
    assert!(has_unclosed_fence("```bash\notogo open req\n"));
    assert!(!has_unclosed_fence("```bash\notogo open req\n```\n"));
    assert!(!has_unclosed_fence("no fences here\n"));
}

#[test]
fn a_backtick_fence_inside_a_tilde_block_is_content() {
    let doc = "~~~\n```\notogo drive\n```\n~~~\n";
    assert_eq!(v(doc), vec!["drive"]);
}

#[test]
fn a_multiline_inline_span_is_not_code() {
    assert!(v("a `otogo\nbogus` b\n").is_empty());
}

#[test]
fn a_verb_named_twice_is_listed_once() {
    assert_eq!(v("`otogo open a` and `otogo open b`\n"), vec!["open"]);
}

#[test]
fn a_shorter_closing_fence_does_not_close() {
    assert!(has_unclosed_fence("````\notogo drive\n```\n"));
    assert!(!has_unclosed_fence("```\notogo drive\n````\n"));
}

#[test]
fn code_lines_hold_spans_and_block_lines_in_order() {
    let doc = "say `a b` and `c`\n```\nx y\n```\n    z\n";
    assert_eq!(code_lines(doc), vec!["a b", "c", "x y", "    z"]);
}

#[test]
fn an_unpaired_backtick_opens_nothing() {
    assert!(code_lines("one ` alone\n").is_empty());
}

use tracer::reviewer::{download_instructions, download_url, fit_prompt, InputError, Source};

#[test]
fn prompt_given_two_ways_is_rejected() {
    let r = Source::from_prompt_flags(Some("a prompt".to_string()), Some("/tmp/whatever".to_string()), false);
    let err = r.unwrap_err();
    assert_eq!(err, InputError::PromptTwice);
    assert!(err.message().contains("exactly one way"));
}

#[test]
fn no_prompt_at_all_is_rejected() {
    let err = Source::from_prompt_flags(None, None, false).unwrap_err();
    let out = err.message();
    assert!(out.contains("no prompt given"));
    assert!(out.contains("--stdin"));
}

#[test]
fn instructions_given_two_ways_is_rejected() {
    let err = Source::from_instructions_flags(Some("inline text".to_string()), Some("/tmp/whatever".to_string()))
        .unwrap_err();
    assert!(err.message().contains("exactly one way"));
}

#[test]
fn no_instructions_at_all_is_rejected() {
    let out = Source::from_instructions_flags(None, None).unwrap_err().message();
    assert!(out.contains("no instructions given"));
    assert!(out.contains("--instructions") && out.contains("--instructions-file"));
    assert!(!out.contains("--instructions-stdin"));
}

#[test]
fn each_single_prompt_source_is_accepted() {
    assert_eq!(
        Source::from_prompt_flags(Some("Write a poem.".to_string()), None, false),
        Ok(Source::Inline("Write a poem.".to_string()))
    );
    assert_eq!(
        Source::from_prompt_flags(None, Some("p.txt".to_string()), false),
        Ok(Source::File("p.txt".to_string()))
    );
    assert_eq!(Source::from_prompt_flags(None, None, true), Ok(Source::Stdin));
    assert_eq!(
        Source::from_prompt_flags(Some("x".to_string()), None, true),
        Err(InputError::PromptTwice)
    );
}

#[test]
fn download_url_names_repo_and_file() {
    assert_eq!(
        download_url(),
        "https://huggingface.co/ggml-org/gemma-4-E4B-it-GGUF/resolve/main/gemma-4-E4B-it-Q4_K_M.gguf"
    );
}

#[test]
fn missing_model_error_carries_the_overridden_path() {
    let out = download_instructions("/tmp/custom/model.gguf");
    assert!(out.contains("/tmp/custom/model.gguf"));
    assert!(out.contains("not present"));
    assert!(out.contains("review-prompt download"));
    assert!(out.contains("PROMPT_REVIEWER_MODEL"));
}

#[test]
fn prompt_keeps_its_tail_when_it_overflows_the_window() {
    let tokens: Vec<i32> = (1..=10).collect();
    assert_eq!(fit_prompt(&tokens, 8, 5), (vec![8, 9, 10], true));
    assert_eq!(fit_prompt(&tokens, 4096, 0), (tokens.clone(), false));
    assert_eq!(fit_prompt(&tokens, 2, 10), (vec![10], true));
    assert_eq!(fit_prompt(&tokens, 12, 2), (tokens.clone(), false));
    assert_eq!(fit_prompt(&vec![], 0, 1), (vec![], false));
}

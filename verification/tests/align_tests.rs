use pruner::native::AlignComments;
use pruner::plugin::{FormatError, FormatOpts, PluginApi};

fn run(source: &str) -> Result<String, FormatError> {
    let result = AlignComments::format(
        source.as_bytes().to_vec(),
        FormatOpts {
            printwidth: 80,
            language: "clojure".to_string(),
        },
    )?;
    Ok(String::from_utf8(result).unwrap())
}

#[test]
fn test_align_single_comment() -> Result<(), FormatError> {
    let source = r#"
(defn foo []
;; This is a comment
  (println "hello"))"#;

    let expected = r#"
(defn foo []
  ;; This is a comment
  (println "hello"))"#;

    assert_eq!(run(source)?, expected);
    Ok(())
}

#[test]
fn test_align_multiple_connected_comments() -> Result<(), FormatError> {
    let source = r#"
(defn foo []
;; Comment 1
;; Comment 2
  (println "hello"))"#;

    let expected = r#"
(defn foo []
  ;; Comment 1
  ;; Comment 2
  (println "hello"))"#;

    assert_eq!(run(source)?, expected);
    Ok(())
}

#[test]
fn test_no_change_when_aligned() -> Result<(), FormatError> {
    let source = r#"
(defn foo []
  ;; Already aligned
  (println "hello"))"#;

    assert_eq!(run(source)?, source);
    Ok(())
}

#[test]
fn test_ignore_single_semicolon() -> Result<(), FormatError> {
    let source = r#"
(defn foo []
; Single semicolon comment
  (println "hello"))"#;

    assert_eq!(run(source)?, source);
    Ok(())
}

#[test]
fn test_ignore_inline_comment() -> Result<(), FormatError> {
    let source = r#"
(defn foo [] ;; inline comment
  (println "hello"))"#;

    assert_eq!(run(source)?, source);
    Ok(())
}

#[test]
fn test_align_multiple_unconnected_comments() -> Result<(), FormatError> {
    let source = r#"
(defn foo []
;; Comment 1
;; Comment 2
  (println "hello")
    ;; Comment 3
  (let [a 1
    ;; Comment 4
        b 2
          ;; Comment 5
        c 3]))"#;

    let expected = r#"
(defn foo []
  ;; Comment 1
  ;; Comment 2
  (println "hello")
  ;; Comment 3
  (let [a 1
        ;; Comment 4
        b 2
        ;; Comment 5
        c 3]))"#;

    assert_eq!(run(source)?, expected);
    Ok(())
}

use std::collections::HashMap;

use rte::template::{SyntaxMode, TemplateConfig, TemplateFile, TemplatedFileIter};
use rte::RteError;

fn files_from_pairs(pairs: Vec<(&str, &str)>) -> Vec<TemplateFile> {
    pairs
        .into_iter()
        .map(|(path, content)| TemplateFile {
            path: path.to_string(),
            content: content.as_bytes().to_vec(),
        })
        .collect()
}

fn collect_to_map(mut iter: TemplatedFileIter) -> Result<HashMap<String, String>, RteError> {
    let mut result = HashMap::new();
    while let Some(item) = iter.next() {
        let file = item?;
        let content = String::from_utf8(file.content).expect("non-utf8 content");
        result.insert(file.path, content);
    }
    Ok(result)
}

fn to_string_map(pairs: Vec<(&str, &str)>) -> HashMap<String, String> {
    pairs
        .into_iter()
        .map(|(k, v)| (k.to_string(), v.to_string()))
        .collect()
}

fn test_params() -> serde_json::Value {
    let mut m = serde_json::Map::new();
    m.insert(
        "project_name".to_string(),
        serde_json::Value::String("my-app".to_string()),
    );
    m.insert(
        "author".to_string(),
        serde_json::Value::String("Alice".to_string()),
    );
    serde_json::Value::Object(m)
}

fn test_template() -> (Vec<(&'static str, &'static str)>, Vec<(&'static str, &'static str)>) {
    let template = vec![
        (
            "README.md",
            "# {{ values.project_name }}\n\nA project by {{ values.author }}.",
        ),
        (
            "src/main.rs",
            "fn main() {\n    println!(\"Hello from {{ values.project_name }}\");\n}",
        ),
        (
            "src/{{ values.project_name }}.rs",
            "// prepared file for {{ values.project_name }}",
        ),
    ];
    let expected = vec![
        ("README.md", "# my-app\n\nA project by Alice."),
        (
            "src/main.rs",
            "fn main() {\n    println!(\"Hello from my-app\");\n}",
        ),
        ("src/my-app.rs", "// prepared file for my-app"),
    ];
    (template, expected)
}

#[test]
fn test_template_rendering() {
    let (template, expected) = test_template();
    let params = test_params();

    let source = files_from_pairs(template);
    let templated = TemplatedFileIter::with_config(source, params, TemplateConfig::default());
    let result = collect_to_map(templated).unwrap();

    assert_eq!(result, to_string_map(expected));
}

#[test]
fn test_undefined_parameter_fails() {
    let files = files_from_pairs(vec![("file.txt", "Hello {{ missing_param }}")]);

    let params = serde_json::Value::Object(serde_json::Map::new());

    let mut templated = TemplatedFileIter::with_config(files, params, TemplateConfig::default());

    let result = templated.next().unwrap();
    assert!(result.is_err());
    let err = result.unwrap_err().message();
    assert!(err.contains("missing_param") || err.contains("undefined"));
}

fn backstage_test_template() -> (Vec<(&'static str, &'static str)>, Vec<(&'static str, &'static str)>) {
    let template = vec![
        (
            "README.md",
            "# ${{ values.project_name }}\n\nA project by ${{ values.author }}.",
        ),
        (
            "src/main.rs",
            "fn main() {\n    println!(\"Hello from ${{ values.project_name }}\");\n}",
        ),
        (
            "src/${{ values.project_name }}.rs",
            "// prepared file for ${{ values.project_name }}",
        ),
    ];
    let expected = vec![
        ("README.md", "# my-app\n\nA project by Alice."),
        (
            "src/main.rs",
            "fn main() {\n    println!(\"Hello from my-app\");\n}",
        ),
        ("src/my-app.rs", "// prepared file for my-app"),
    ];
    (template, expected)
}

#[test]
fn test_backstage_syntax() {
    let (template, expected) = backstage_test_template();
    let params = test_params();

    let source = files_from_pairs(template);
    let templated = TemplatedFileIter::with_config(
        source,
        params,
        TemplateConfig {
            syntax: SyntaxMode::Backstage,
            root_value: Some("values".to_owned()),
        },
    );
    let result = collect_to_map(templated).unwrap();

    assert_eq!(result, to_string_map(expected));
}

#[test]
fn test_backstage_ignores_jinja_syntax() {
    // Backstage mode should NOT process standard {{ }} syntax
    let files = files_from_pairs(vec![(
        "file.txt",
        "Keep {{ this }} as-is, but render ${{ values.name }}",
    )]);

    let mut m = serde_json::Map::new();
    m.insert(
        "name".to_string(),
        serde_json::Value::String("Bob".to_string()),
    );
    let params = serde_json::Value::Object(m);

    let templated = TemplatedFileIter::with_config(
        files,
        params,
        TemplateConfig {
            syntax: SyntaxMode::Backstage,
            root_value: Some("values".to_owned()),
        },
    );
    let result = collect_to_map(templated).unwrap();

    let expected = to_string_map(vec![("file.txt", "Keep {{ this }} as-is, but render Bob")]);
    assert_eq!(result, expected);
}

#[test]
fn test_identity_without_delimiters() {
    // Text holding no template delimiters passes through byte-identical,
    // whatever the parameters hold.
    let files = files_from_pairs(vec![
        ("docs/readme", "no delimiters here."),
        ("plain.txt", "some } stray { braces % and $ signs"),
    ]);
    let params = test_params();
    let templated = TemplatedFileIter::with_config(files, params, TemplateConfig::default());
    let result = collect_to_map(templated).unwrap();
    let expected = to_string_map(vec![
        ("docs/readme", "no delimiters here."),
        ("plain.txt", "some } stray { braces % and $ signs"),
    ]);
    assert_eq!(result, expected);
}

#[test]
fn test_identity_backstage_mode() {
    let files = files_from_pairs(vec![("a.txt", "plain text, untouched.")]);
    let params = test_params();
    let templated = TemplatedFileIter::with_config(
        files,
        params,
        TemplateConfig {
            syntax: SyntaxMode::Backstage,
            root_value: Some("values".to_owned()),
        },
    );
    let result = collect_to_map(templated).unwrap();
    assert_eq!(
        result,
        to_string_map(vec![("a.txt", "plain text, untouched.")])
    );
}

#[test]
fn test_parameters_on_root() {
    // With no root key, templates reference parameters directly.
    let files = files_from_pairs(vec![("f", "hi {{ project_name }}")]);
    let params = test_params();
    let templated = TemplatedFileIter::with_config(
        files,
        params,
        TemplateConfig {
            syntax: SyntaxMode::Jinja,
            root_value: None,
        },
    );
    let result = collect_to_map(templated).unwrap();
    assert_eq!(result, to_string_map(vec![("f", "hi my-app")]));
}

#[test]
fn test_non_utf8_content_fails() {
    let files = vec![TemplateFile {
        path: "bin.dat".to_string(),
        content: vec![0xff, 0xfe, 0x00, 0x01],
    }];
    let params = serde_json::Value::Object(serde_json::Map::new());
    let mut templated = TemplatedFileIter::with_config(files, params, TemplateConfig::default());
    let result = templated.next().unwrap();
    let err = result.unwrap_err();
    assert!(matches!(err, RteError::Encoding { .. }));
    assert!(err.message().contains("UTF8"));
    assert!(err.message().contains("bin.dat"));
}

#[test]
fn test_path_render_failure_names_path() {
    let files = files_from_pairs(vec![("src/{{ missing }}.rs", "content")]);
    let params = serde_json::Value::Object(serde_json::Map::new());
    let mut templated = TemplatedFileIter::with_config(files, params, TemplateConfig::default());
    let result = templated.next().unwrap();
    let err = result.unwrap_err();
    assert!(matches!(err, RteError::TemplatePath { .. }));
    let msg = err.message();
    assert!(msg.contains("failed to render path"));
    assert!(msg.contains("src/{{ missing }}.rs"));
}

#[test]
fn test_scenario_readme() {
    // One record rendered against parameters wrapped under `values`.
    let files = files_from_pairs(vec![(
        "README.md",
        "# {{ values.project_name }}\n\nA project by {{ values.author }}.",
    )]);
    let params = test_params();
    let templated = TemplatedFileIter::with_config(files, params, TemplateConfig::default());
    let result = collect_to_map(templated).unwrap();
    assert_eq!(
        result,
        to_string_map(vec![("README.md", "# my-app\n\nA project by Alice.")])
    );
}

#[test]
fn test_scenario_templated_path() {
    let files = files_from_pairs(vec![("src/{{ values.project_name }}.rs", "x")]);
    let params = test_params();
    let templated = TemplatedFileIter::with_config(files, params, TemplateConfig::default());
    let result = collect_to_map(templated).unwrap();
    assert_eq!(result, to_string_map(vec![("src/my-app.rs", "x")]));
}

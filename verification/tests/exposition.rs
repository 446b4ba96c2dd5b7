use netquality::exposition::{ExpositionBuilder, LabelBuilder, MetricType};
use netquality::go_floats::F32Bits;
use netquality::strings::PName;

#[test]
fn empty_metric_emits_nothing() {
    let mut builder = ExpositionBuilder::new();
    builder.begin_metric(&PName::new("unused").unwrap(), MetricType::Gauge, "never written");
    builder.end_metric();
    assert_eq!(builder.render(), "");
}

#[test]
fn single_metric_renders_header_and_lines() {
    let mut builder = ExpositionBuilder::new();
    builder.begin_metric(&PName::new("m").unwrap(), MetricType::Gauge, "h");
    builder.add_line(&7u64, None);
    builder.end_metric();
    assert_eq!(builder.render(), "# HELP m h\n# TYPE m gauge\nm 7\n");
}

#[test]
fn duplicate_metric_keeps_one_header_and_appends() {
    let mut builder = ExpositionBuilder::new();
    let m = PName::new("m").unwrap();
    builder.begin_metric(&m, MetricType::Gauge, "h");
    builder.add_line(&1u64, None);
    builder.add_line(&2u64, None);
    builder.end_metric();
    builder.begin_metric(&m, MetricType::Gauge, "h");
    builder.add_line(&1u64, None);
    builder.add_line(&2u64, None);
    builder.end_metric();
    assert_eq!(builder.render(), "# HELP m h\n# TYPE m gauge\nm 1\nm 2\nm 1\nm 2\n");
}

#[test]
fn labels_render_in_push_order() {
    let mut builder = ExpositionBuilder::new();
    builder.push_label(&PName::new("target").unwrap(), "one");
    builder.push_label(&PName::new("direction").unwrap(), "up");
    builder.begin_metric(&PName::new("m").unwrap(), MetricType::Counter, "h");
    builder.add_line(&1u64, None);
    builder.end_metric();
    builder.pop_label();
    builder.pop_label();
    assert_eq!(
        builder.render(),
        "# HELP m h\n# TYPE m counter\nm{target=\"one\", direction=\"up\"} 1\n"
    );
}

#[test]
fn label_values_escaped_in_lines() {
    let mut builder = ExpositionBuilder::new();
    builder.begin_metric(&PName::new("m").unwrap(), MetricType::Gauge, "h");
    builder.add_line_labeled(
        &PName::new("error").unwrap(),
        "she said \"hi\"\nbye",
        &1u64,
        None,
    );
    builder.end_metric();
    assert_eq!(
        builder.render(),
        "# HELP m h\n# TYPE m gauge\nm{error=\"she said \\\"hi\\\"\\nbye\"} 1\n"
    );
}

#[test]
fn help_text_newlines_become_spaces() {
    let mut builder = ExpositionBuilder::new();
    builder.begin_metric(&PName::new("m").unwrap(), MetricType::Untyped, "two\nlines");
    builder.add_line(&0u64, None);
    builder.end_metric();
    assert_eq!(builder.render(), "# HELP m two lines\n# TYPE m untyped\nm 0\n");
}

#[test]
fn name_suffixes_prefix_lines() {
    let mut builder = ExpositionBuilder::new();
    builder.push_name(&PName::new("ping").unwrap());
    builder.begin_metric(&PName::new("_ms").unwrap(), MetricType::Summary, "h");
    builder.push_name(&PName::new("_count").unwrap());
    builder.add_line(&3u64, None);
    builder.pop_name();
    builder.end_metric();
    builder.pop_name();
    assert_eq!(
        builder.render(),
        "# HELP ping_ms h\n# TYPE ping_ms summary\nping_ms_count 3\n"
    );
}

#[test]
fn timestamps_follow_the_value() {
    let mut builder = ExpositionBuilder::new();
    builder.begin_metric(&PName::new("m").unwrap(), MetricType::Gauge, "h");
    builder.add_line(&5u64, Some(1700000000000));
    builder.end_metric();
    assert_eq!(builder.render(), "# HELP m h\n# TYPE m gauge\nm 5 1700000000000\n");
}

#[test]
fn insertion_order_is_preserved() {
    let mut builder = ExpositionBuilder::new();
    builder.begin_metric(&PName::new("zz").unwrap(), MetricType::Gauge, "late alphabet");
    builder.add_line(&1u64, None);
    builder.end_metric();
    builder.begin_metric(&PName::new("aa").unwrap(), MetricType::Gauge, "early alphabet");
    builder.add_line(&2u64, None);
    builder.end_metric();
    assert_eq!(
        builder.render(),
        "# HELP zz late alphabet\n# TYPE zz gauge\nzz 1\n# HELP aa early alphabet\n# TYPE aa gauge\naa 2\n"
    );
}

#[test]
fn label_builder_stack_behaviour() {
    let mut labels = LabelBuilder::new();
    assert!(labels.is_empty());
    labels.push(&PName::new("a").unwrap(), "1");
    labels.push(&PName::new("b").unwrap(), "2");
    assert!(!labels.is_empty());
    assert!(labels.pop());
    assert!(labels.pop());
    assert!(labels.is_empty());
    assert!(!labels.pop());
    labels.push(&PName::new("c").unwrap(), "3");
    labels.clear();
    assert!(labels.is_empty());
}

#[test]
fn boolean_and_float_values_render() {
    let mut builder = ExpositionBuilder::new();
    builder.begin_metric(&PName::new("m").unwrap(), MetricType::Gauge, "h");
    builder.add_line(&true, None);
    builder.add_line(&F32Bits { bits: 1.0f32.to_bits() }, None);
    builder.end_metric();
    assert_eq!(builder.render(), "# HELP m h\n# TYPE m gauge\nm 1\nm +0x1.p0\n");
}

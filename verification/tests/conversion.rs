use phase_change::builder::{execute, plan_route};
use phase_change::converters::audio::AudioFileType;
use phase_change::converters::image::ImageFileType;
use phase_change::paths::{default_output, temp_path};
use phase_change::search::shortest_path;
use phase_change::{
    get_extension_for_type, ConfigurationIssue, ConvertError, Converter, ConverterRegistry,
    FileConvertBuilder, FileType, Hop,
};
use std::sync::{Arc, Mutex};

const PNG: FileType = FileType::Image(ImageFileType::PNG);
const JPEG: FileType = FileType::Image(ImageFileType::JPEG);
const MP3: FileType = FileType::Audio(AudioFileType::MP3);
const WAV: FileType = FileType::Audio(AudioFileType::WAV);

type Log = Arc<Mutex<Vec<(String, String, String)>>>;

/// A converter that records each run and touches no file.
struct Recorder {
    from: FileType,
    to: FileType,
    label: &'static str,
    fails: bool,
    log: Log,
}

impl Converter for Recorder {
    fn source(&self) -> FileType {
        self.from
    }

    fn target(&self) -> FileType {
        self.to
    }

    fn convert(&self, input_path: &String, output_path: &String) -> Result<(), String> {
        self.log.lock().unwrap().push((
            self.label.to_string(),
            input_path.clone(),
            output_path.clone(),
        ));
        if self.fails {
            Err(format!("{} failed", self.label))
        } else {
            Ok(())
        }
    }

    fn from_type(&self) -> FileType {
        self.from
    }

    fn to_type(&self) -> FileType {
        self.to
    }
}

fn new_log() -> Log {
    Arc::new(Mutex::new(Vec::new()))
}

fn edge(from: FileType, to: FileType, label: &'static str, log: &Log) -> Recorder {
    Recorder { from, to, label, fails: false, log: log.clone() }
}

fn failing(from: FileType, to: FileType, label: &'static str, log: &Log) -> Recorder {
    Recorder { from, to, label, fails: true, log: log.clone() }
}

fn runs(log: &Log) -> Vec<(String, String, String)> {
    log.lock().unwrap().clone()
}

fn run(label: &str, input: &str, output: &str) -> (String, String, String) {
    (label.to_string(), input.to_string(), output.to_string())
}

#[test]
fn default_format_is_unknown() {
    assert_eq!(FileType::default(), FileType::Unknown);
}

#[test]
fn formats_compare_by_full_identity() {
    assert_eq!(PNG, FileType::Image(ImageFileType::PNG));
    assert_ne!(PNG, JPEG);
    assert_ne!(PNG, MP3);
    assert_ne!(FileType::Unknown, WAV);
}

#[test]
fn canonical_extensions() {
    assert_eq!(get_extension_for_type(&PNG), "png");
    assert_eq!(get_extension_for_type(&JPEG), "jpg");
    assert_eq!(get_extension_for_type(&MP3), "mp3");
    assert_eq!(get_extension_for_type(&WAV), "wav");
    assert_eq!(get_extension_for_type(&FileType::Unknown), "unknown");
}

#[test]
fn default_output_replaces_extension() {
    assert_eq!(default_output(&"pictures/cat.png".to_string(), &JPEG), "pictures/cat.jpg");
    assert_eq!(default_output(&"cat".to_string(), &MP3), "cat.mp3");
}

#[test]
fn temp_path_is_marked_and_beside_input() {
    assert_eq!(
        temp_path(&"pictures/cat.png".to_string(), &JPEG),
        Some("pictures/temp_cat.jpg".to_string())
    );
    assert_eq!(temp_path(&"cat.png".to_string(), &WAV), Some("temp_cat.wav".to_string()));
}

#[test]
fn temp_path_needs_a_file_name() {
    assert_eq!(temp_path(&"".to_string(), &JPEG), None);
    assert_eq!(temp_path(&"..".to_string(), &JPEG), None);
    assert_eq!(temp_path(&"/".to_string(), &JPEG), None);
}

#[test]
fn new_registry_is_empty() {
    let registry: ConverterRegistry<Recorder> = ConverterRegistry::new();
    assert!(!registry.can_convert(PNG, JPEG));
    assert_eq!(registry.find_conversion_path(PNG, JPEG), None);
}

#[test]
fn registered_edge_is_direct_and_is_its_own_path() {
    let log = new_log();
    let mut registry = ConverterRegistry::new();
    registry.register(edge(PNG, JPEG, "png-jpeg", &log));
    assert!(registry.can_convert(PNG, JPEG));
    assert!(!registry.can_convert(JPEG, PNG));
    assert_eq!(registry.find_conversion_path(PNG, JPEG), Some(vec![PNG, JPEG]));
    assert_eq!(registry.find_conversion_path(JPEG, PNG), None);
}

#[test]
fn identity_path_whatever_is_registered() {
    let log = new_log();
    let mut registry = ConverterRegistry::new();
    assert_eq!(registry.find_conversion_path(PNG, PNG), Some(vec![PNG]));
    assert_eq!(
        registry.find_conversion_path(FileType::Unknown, FileType::Unknown),
        Some(vec![FileType::Unknown])
    );
    registry.register(edge(PNG, JPEG, "png-jpeg", &log));
    registry.register(edge(PNG, PNG, "png-png", &log));
    assert_eq!(registry.find_conversion_path(PNG, PNG), Some(vec![PNG]));
    assert_eq!(registry.find_conversion_path(WAV, WAV), Some(vec![WAV]));
}

#[test]
fn newest_registration_wins() {
    let log = new_log();
    let mut registry = ConverterRegistry::new();
    registry.register(edge(PNG, JPEG, "first", &log));
    registry.register(edge(JPEG, MP3, "other", &log));
    registry.register(edge(PNG, JPEG, "second", &log));
    let r = registry.convert(&PNG, &JPEG, &"a.png".to_string(), &"a.jpg".to_string());
    assert!(r.is_ok());
    assert_eq!(runs(&log), vec![run("second", "a.png", "a.jpg")]);
    assert!(registry.can_convert(JPEG, MP3));
}

#[test]
fn direct_convert_without_converter_names_the_pair() {
    let log = new_log();
    let mut registry = ConverterRegistry::new();
    registry.register(edge(PNG, JPEG, "png-jpeg", &log));
    registry.register(edge(JPEG, MP3, "jpeg-mp3", &log));
    let r = registry.convert(&PNG, &MP3, &"a.png".to_string(), &"a.mp3".to_string());
    assert!(matches!(r, Err(ConvertError::NoDirectConverter { from: PNG, to: MP3 })));
    assert!(runs(&log).is_empty());
}

#[test]
fn direct_convert_hands_failure_on() {
    let log = new_log();
    let mut registry = ConverterRegistry::new();
    registry.register(failing(PNG, JPEG, "broken", &log));
    let r = registry.convert(&PNG, &JPEG, &"a.png".to_string(), &"a.jpg".to_string());
    match r {
        Err(ConvertError::ConversionFailure(message)) => assert_eq!(message, "broken failed"),
        other => panic!("unexpected result {:?}", other),
    }
    assert_eq!(runs(&log).len(), 1);
}

#[test]
fn two_hop_path_is_found() {
    let log = new_log();
    let mut registry = ConverterRegistry::new();
    registry.register(edge(PNG, JPEG, "ab", &log));
    registry.register(edge(JPEG, MP3, "bc", &log));
    assert!(!registry.can_convert(PNG, MP3));
    assert_eq!(registry.find_conversion_path(PNG, MP3), Some(vec![PNG, JPEG, MP3]));
}

#[test]
fn shorter_path_is_preferred_over_longer() {
    let log = new_log();
    let mut registry = ConverterRegistry::new();
    registry.register(edge(PNG, WAV, "ad", &log));
    registry.register(edge(WAV, FileType::Unknown, "de", &log));
    registry.register(edge(FileType::Unknown, MP3, "ec", &log));
    registry.register(edge(PNG, JPEG, "ab", &log));
    registry.register(edge(JPEG, MP3, "bc", &log));
    assert_eq!(registry.find_conversion_path(PNG, MP3), Some(vec![PNG, JPEG, MP3]));
}

#[test]
fn three_hop_path_when_nothing_shorter() {
    let edges = vec![(WAV, MP3), (PNG, WAV), (MP3, JPEG), (JPEG, PNG)];
    assert_eq!(shortest_path(&edges, PNG, JPEG), Some(vec![PNG, WAV, MP3, JPEG]));
    assert_eq!(shortest_path(&edges, JPEG, MP3), Some(vec![JPEG, PNG, WAV, MP3]));
    assert_eq!(shortest_path(&edges, PNG, FileType::Unknown), None);
}

#[test]
fn ties_give_some_shortest_path() {
    let edges = vec![(PNG, JPEG), (PNG, WAV), (JPEG, MP3), (WAV, MP3)];
    let path = shortest_path(&edges, PNG, MP3).unwrap();
    assert_eq!(path.len(), 3);
    assert_eq!(path[0], PNG);
    assert_eq!(path[2], MP3);
    assert!(path[1] == JPEG || path[1] == WAV);
}

#[test]
fn search_ignores_cycles_and_self_loops() {
    let edges = vec![(PNG, PNG), (PNG, JPEG), (JPEG, PNG), (JPEG, JPEG)];
    assert_eq!(shortest_path(&edges, PNG, JPEG), Some(vec![PNG, JPEG]));
    assert_eq!(shortest_path(&edges, PNG, MP3), None);
    assert_eq!(shortest_path(&Vec::new(), PNG, MP3), None);
}

#[test]
fn plan_route_lays_out_intermediates() {
    let route = vec![PNG, JPEG, WAV, MP3];
    let hops = plan_route(&route, &"d/in.png".to_string(), &"out.mp3".to_string()).unwrap();
    assert_eq!(hops.len(), 3);
    assert_eq!((hops[0].from, hops[0].to), (PNG, JPEG));
    assert_eq!((hops[0].input.as_str(), hops[0].output.as_str()), ("d/in.png", "d/temp_in.jpg"));
    assert_eq!((hops[1].from, hops[1].to), (JPEG, WAV));
    assert_eq!(
        (hops[1].input.as_str(), hops[1].output.as_str()),
        ("d/temp_in.jpg", "d/temp_temp_in.wav")
    );
    assert_eq!((hops[2].from, hops[2].to), (WAV, MP3));
    assert_eq!(
        (hops[2].input.as_str(), hops[2].output.as_str()),
        ("d/temp_temp_in.wav", "out.mp3")
    );
}

#[test]
fn plan_route_of_one_format_has_no_hops() {
    let hops = plan_route(&vec![PNG], &"in.png".to_string(), &"out.png".to_string()).unwrap();
    assert!(hops.is_empty());
}

#[test]
fn plan_route_single_hop_needs_no_file_name() {
    let hops = plan_route(&vec![PNG, JPEG], &"".to_string(), &"out.jpg".to_string()).unwrap();
    assert_eq!(hops.len(), 1);
    assert_eq!((hops[0].input.as_str(), hops[0].output.as_str()), ("", "out.jpg"));
}

#[test]
fn plan_route_refuses_input_without_file_name() {
    let r = plan_route(&vec![PNG, JPEG, MP3], &"..".to_string(), &"out.mp3".to_string());
    assert!(matches!(
        r,
        Err(ConvertError::Configuration(ConfigurationIssue::InputWithoutFileName))
    ));
}

#[test]
fn execute_stops_at_first_failure() {
    let log = new_log();
    let mut registry = ConverterRegistry::new();
    registry.register(edge(PNG, JPEG, "one", &log));
    registry.register(failing(JPEG, WAV, "two", &log));
    registry.register(edge(WAV, MP3, "three", &log));
    let hops = vec![
        Hop { from: PNG, to: JPEG, input: "a".to_string(), output: "b".to_string() },
        Hop { from: JPEG, to: WAV, input: "b".to_string(), output: "c".to_string() },
        Hop { from: WAV, to: MP3, input: "c".to_string(), output: "d".to_string() },
    ];
    match execute(&registry, &hops) {
        Err(ConvertError::ConversionFailure(message)) => assert_eq!(message, "two failed"),
        other => panic!("unexpected result {:?}", other),
    }
    assert_eq!(runs(&log), vec![run("one", "a", "b"), run("two", "b", "c")]);
}

#[test]
fn execute_of_no_hops_succeeds() {
    let registry: ConverterRegistry<Recorder> = ConverterRegistry::new();
    assert!(execute(&registry, &Vec::new()).is_ok());
}

#[test]
fn execute_reports_missing_converter() {
    let registry: ConverterRegistry<Recorder> = ConverterRegistry::new();
    let hops =
        vec![Hop { from: PNG, to: JPEG, input: "a".to_string(), output: "b".to_string() }];
    assert!(matches!(
        execute(&registry, &hops),
        Err(ConvertError::NoDirectConverter { from: PNG, to: JPEG })
    ));
}

#[test]
fn direct_conversion_with_explicit_output() {
    let log = new_log();
    let mut builder = FileConvertBuilder::new();
    builder.with_converter(edge(PNG, JPEG, "png-jpeg", &log));
    builder.from_file(PNG, "resources/input.png".to_string());
    builder.to_file(JPEG, Some("out.jpg".to_string()));
    assert!(builder.convert().is_ok());
    assert_eq!(runs(&log), vec![run("png-jpeg", "resources/input.png", "out.jpg")]);
}

#[test]
fn direct_conversion_derives_output() {
    let log = new_log();
    let mut builder = FileConvertBuilder::new();
    builder
        .with_converter(edge(PNG, JPEG, "png-jpeg", &log))
        .from_file(PNG, "resources/input.png".to_string())
        .to_file(JPEG, None);
    assert!(builder.convert().is_ok());
    assert_eq!(runs(&log), vec![run("png-jpeg", "resources/input.png", "resources/input.jpg")]);
}

#[test]
fn direct_edge_is_preferred_over_any_path() {
    let log = new_log();
    let mut builder = FileConvertBuilder::new();
    builder.with_converters(vec![
        edge(PNG, WAV, "png-wav", &log),
        edge(WAV, JPEG, "wav-jpeg", &log),
        edge(PNG, JPEG, "direct", &log),
    ]);
    builder.from_file(PNG, "in.png".to_string());
    builder.to_file(JPEG, Some("out.jpg".to_string()));
    let hops = builder.plan().unwrap();
    assert_eq!(hops.len(), 1);
    assert!(builder.convert().is_ok());
    assert_eq!(runs(&log), vec![run("direct", "in.png", "out.jpg")]);
}

#[test]
fn two_hops_with_derived_output() {
    let log = new_log();
    let mut builder = FileConvertBuilder::new();
    builder.with_converter(edge(PNG, JPEG, "png-jpeg", &log));
    builder.with_converter(edge(JPEG, MP3, "jpeg-x", &log));
    builder.from_file(PNG, "photos/input.png".to_string());
    builder.to_file(MP3, None);
    assert!(builder.convert().is_ok());
    assert_eq!(
        runs(&log),
        vec![
            run("png-jpeg", "photos/input.png", "photos/temp_input.jpg"),
            run("jpeg-x", "photos/temp_input.jpg", "photos/input.mp3"),
        ]
    );
}

#[test]
fn multi_hop_failure_aborts_the_rest() {
    let log = new_log();
    let mut builder = FileConvertBuilder::new();
    builder.with_converters(vec![
        failing(PNG, JPEG, "first", &log),
        edge(JPEG, MP3, "second", &log),
    ]);
    builder.from_file(PNG, "in.png".to_string());
    builder.to_file(MP3, Some("out.mp3".to_string()));
    match builder.convert() {
        Err(ConvertError::ConversionFailure(message)) => assert_eq!(message, "first failed"),
        other => panic!("unexpected result {:?}", other),
    }
    assert_eq!(runs(&log), vec![run("first", "in.png", "temp_in.jpg")]);
}

#[test]
fn unknown_source_is_refused_before_any_run() {
    let log = new_log();
    let mut builder = FileConvertBuilder::new();
    builder.with_converter(edge(FileType::Unknown, JPEG, "never", &log));
    builder.from_file(FileType::Unknown, "in.bin".to_string());
    builder.to_file(JPEG, Some("out.jpg".to_string()));
    assert!(matches!(
        builder.plan(),
        Err(ConvertError::Configuration(ConfigurationIssue::SourceTypeUnknown))
    ));
    assert!(matches!(
        builder.convert(),
        Err(ConvertError::Configuration(ConfigurationIssue::SourceTypeUnknown))
    ));
    assert!(runs(&log).is_empty());
}

#[test]
fn unknown_target_is_refused_before_any_run() {
    let log = new_log();
    let mut builder = FileConvertBuilder::new();
    builder.with_converter(edge(PNG, FileType::Unknown, "never", &log));
    builder.from_file(PNG, "in.png".to_string());
    builder.to_file(FileType::Unknown, None);
    assert!(matches!(
        builder.convert(),
        Err(ConvertError::Configuration(ConfigurationIssue::TargetTypeUnknown))
    ));
    assert!(runs(&log).is_empty());
}

#[test]
fn fresh_builder_has_nothing_declared() {
    let builder: FileConvertBuilder<Recorder> = FileConvertBuilder::new();
    assert!(matches!(
        builder.convert(),
        Err(ConvertError::Configuration(ConfigurationIssue::SourceTypeUnknown))
    ));
}

#[test]
fn no_connecting_edges_names_both_endpoints() {
    let log = new_log();
    let mut builder = FileConvertBuilder::new();
    builder.with_converter(edge(PNG, JPEG, "png-jpeg", &log));
    builder.with_converter(edge(WAV, MP3, "wav-mp3", &log));
    builder.from_file(PNG, "in.png".to_string());
    builder.to_file(MP3, None);
    assert!(matches!(
        builder.convert(),
        Err(ConvertError::NoConversionPath { from: PNG, to: MP3 })
    ));
    assert!(runs(&log).is_empty());
}

#[test]
fn target_without_any_edge_has_no_path() {
    let log = new_log();
    let mut builder = FileConvertBuilder::new();
    builder.with_converter(edge(PNG, JPEG, "png-jpeg", &log));
    builder.from_file(PNG, "in.png".to_string());
    builder.to_file(WAV, Some("out.wav".to_string()));
    assert!(matches!(
        builder.convert(),
        Err(ConvertError::NoConversionPath { from: PNG, to: WAV })
    ));
    assert!(runs(&log).is_empty());
}

#[test]
fn same_format_without_converter_runs_nothing() {
    let log = new_log();
    let mut builder = FileConvertBuilder::new();
    builder.with_converter(edge(PNG, JPEG, "png-jpeg", &log));
    builder.from_file(PNG, "in.png".to_string());
    builder.to_file(PNG, Some("copy.png".to_string()));
    assert!(builder.plan().unwrap().is_empty());
    assert!(builder.convert().is_ok());
    assert!(runs(&log).is_empty());
}

#[test]
fn multi_hop_source_without_file_name_is_refused() {
    let log = new_log();
    let mut builder = FileConvertBuilder::new();
    builder.with_converter(edge(PNG, JPEG, "png-jpeg", &log));
    builder.with_converter(edge(JPEG, MP3, "jpeg-mp3", &log));
    builder.from_file(PNG, "".to_string());
    builder.to_file(MP3, Some("out.mp3".to_string()));
    assert!(matches!(
        builder.convert(),
        Err(ConvertError::Configuration(ConfigurationIssue::InputWithoutFileName))
    ));
    assert!(runs(&log).is_empty());
}

#[test]
fn later_converter_in_a_batch_wins() {
    let log = new_log();
    let mut builder = FileConvertBuilder::new();
    builder.with_converter(edge(PNG, JPEG, "single", &log));
    builder.with_converters(vec![
        edge(PNG, JPEG, "batch-first", &log),
        edge(PNG, JPEG, "batch-last", &log),
    ]);
    builder.from_file(PNG, "in.png".to_string());
    builder.to_file(JPEG, Some("out.jpg".to_string()));
    assert!(builder.convert().is_ok());
    assert_eq!(runs(&log), vec![run("batch-last", "in.png", "out.jpg")]);
}

#[test]
fn plan_lists_hops_without_running_them() {
    let log = new_log();
    let mut builder = FileConvertBuilder::new();
    builder.with_converter(edge(PNG, JPEG, "png-jpeg", &log));
    builder.with_converter(edge(JPEG, MP3, "jpeg-mp3", &log));
    builder.from_file(PNG, "in.png".to_string());
    builder.to_file(MP3, None);
    let hops = builder.plan().unwrap();
    assert_eq!(hops.len(), 2);
    assert_eq!((hops[0].from, hops[0].to), (PNG, JPEG));
    assert_eq!((hops[0].input.as_str(), hops[0].output.as_str()), ("in.png", "temp_in.jpg"));
    assert_eq!((hops[1].from, hops[1].to), (JPEG, MP3));
    assert_eq!((hops[1].input.as_str(), hops[1].output.as_str()), ("temp_in.jpg", "in.mp3"));
    assert!(runs(&log).is_empty());
}

#[test]
fn messages_name_the_pair() {
    assert_eq!(
        ConvertError::NoDirectConverter { from: PNG, to: MP3 }.message(),
        "No converter available from Image(PNG) to Audio(MP3)"
    );
    assert_eq!(
        ConvertError::NoConversionPath { from: WAV, to: JPEG }.message(),
        "No conversion path available from Audio(WAV) to Image(JPEG)"
    );
    assert_eq!(
        ConvertError::NoConversionPath { from: FileType::Unknown, to: JPEG }.message(),
        "No conversion path available from Unknown to Image(JPEG)"
    );
}

#[test]
fn messages_of_the_other_failures() {
    assert_eq!(
        ConvertError::Configuration(ConfigurationIssue::SourceTypeUnknown).message(),
        "Source file type not specified"
    );
    assert_eq!(
        ConvertError::Configuration(ConfigurationIssue::TargetTypeUnknown).message(),
        "Target file type not specified"
    );
    assert_eq!(
        ConvertError::Configuration(ConfigurationIssue::InputWithoutFileName).message(),
        "Input path names no file"
    );
    assert_eq!(ConvertError::ConversionFailure("disk full".to_string()).message(), "disk full");
}

#[test]
fn message_matches_debug_form_of_formats() {
    for kind in [FileType::Unknown, PNG, JPEG, MP3, WAV] {
        let message = ConvertError::NoDirectConverter { from: kind, to: kind }.message();
        assert_eq!(message, format!("No converter available from {:?} to {:?}", kind, kind));
    }
}

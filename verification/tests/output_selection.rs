use trickydata_compiler::cli::{output_location, OutputSelection, SelectionError};
use trickydata_compiler::corpus::Format;

fn sel(format: Option<Format>, t: bool, z: bool, j: bool) -> OutputSelection {
    OutputSelection { format, no_trickydata: t, no_zip: z, no_json_bin: j }
}

#[test]
fn every_container_by_default() {
    assert_eq!(
        sel(None, false, false, false).enabled_formats(),
        Ok(vec![Format::Trickydata, Format::Zip, Format::JsonBin])
    );
}

#[test]
fn no_flags_turn_containers_off() {
    assert_eq!(sel(None, true, false, true).enabled_formats(), Ok(vec![Format::Zip]));
    assert_eq!(sel(None, true, true, true).enabled_formats(), Err(SelectionError::AllDisabled));
}

#[test]
fn one_format_only() {
    assert_eq!(sel(Some(Format::Source), true, true, true).enabled_formats(), Ok(vec![Format::Source]));
    assert_eq!(sel(Some(Format::Zip), false, false, true).enabled_formats(), Ok(vec![Format::Zip]));
    assert_eq!(
        sel(Some(Format::Zip), false, true, false).enabled_formats(),
        Err(SelectionError::ConflictsWithOwnFlag(Format::Zip))
    );
    assert!(!sel(None, true, true, true).disabled(Format::Source));
}

#[test]
fn artifacts_go_under_the_prefix_and_sources_into_the_directory() {
    assert_eq!(output_location(Format::Source, "out"), "out");
    assert_eq!(output_location(Format::Zip, "out"), "out/trickydata");
    assert_eq!(output_location(Format::Trickydata, "."), "./trickydata");
    assert_eq!(output_location(Format::JsonBin, "/srv/data/"), "/srv/data/trickydata");
}

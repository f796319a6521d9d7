use space_trucking::sim::save::SaveError;
use space_trucking::telemetry::TelemetryError;

#[test]
fn save_errors_display_without_panicking() {
    assert_eq!(SaveError::BadMagic.to_string(), "not a Space Trucking save");
    assert_eq!(
        SaveError::Parse { line: 3 }.to_string(),
        "malformed save at line 3"
    );
    assert_eq!(
        SaveError::Parse { line: 0 }.to_string(),
        "save ends too early"
    );
}

#[test]
fn telemetry_errors_display_without_panicking() {
    assert_eq!(
        TelemetryError::BadMagic.to_string(),
        "not a Space Trucking telemetry buffer"
    );
    assert_eq!(
        TelemetryError::UnsupportedVersion.to_string(),
        "telemetry buffer is from an unsupported version"
    );
    assert_eq!(
        TelemetryError::Parse { line: 0 }.to_string(),
        "telemetry buffer ends too early"
    );
    assert_eq!(
        TelemetryError::Parse { line: 4 }.to_string(),
        "malformed telemetry buffer at line 4"
    );
}

/// Line numbers print in full, every digit in order.
#[test]
fn long_line_numbers_print_every_digit() {
    assert_eq!(
        SaveError::Parse { line: 1024 }.to_string(),
        "malformed save at line 1024"
    );
    assert_eq!(
        SaveError::UnsupportedVersion.to_string(),
        "save is from an unsupported version"
    );
}

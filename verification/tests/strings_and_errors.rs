use textr::error::ContextError;
use textr::strings::{capitalize_first_letter, decimal_chars, minimize_first_letter, pad_with_zeros, signed_padded_chars};
use textr::timestamp::{to_pdf_timestamp_format, Timestamp};
use textr::traceable_error::TraceableError;

fn text(chars: Vec<char>) -> String {
    chars.into_iter().collect()
}

#[test]
fn minimize_first_letter_lowers_only_the_first_character() {
    assert_eq!(minimize_first_letter("Hello World".to_string()), "hello World");
    assert_eq!(minimize_first_letter("already".to_string()), "already");
    assert_eq!(minimize_first_letter(String::new()), "");
    assert_eq!(minimize_first_letter("Été".to_string()), "été");
}

#[test]
fn capitalize_first_letter_raises_only_the_first_character() {
    assert_eq!(capitalize_first_letter("hello world".to_string()), "Hello world");
    assert_eq!(capitalize_first_letter("1abc".to_string()), "1abc");
    assert_eq!(capitalize_first_letter(String::new()), "");
    assert_eq!(capitalize_first_letter("ßtraße".to_string()), "SStraße");
}

#[test]
fn decimal_and_padding() {
    assert_eq!(text(decimal_chars(0)), "0");
    assert_eq!(text(decimal_chars(1970)), "1970");
    assert_eq!(text(pad_with_zeros(decimal_chars(7), 2)), "07");
    assert_eq!(text(pad_with_zeros(decimal_chars(123), 2)), "123");
    assert_eq!(text(signed_padded_chars(-5, 4)), "-005");
    assert_eq!(text(signed_padded_chars(42, 4)), "0042");
}

#[test]
fn context_error_without_source() {
    let error = ContextError::with_context("Failed to find the page with index 3".to_string());
    assert_eq!(error.context, "Failed to find the page with index 3");
    assert_eq!(error.source_error, None);
    assert_eq!(error.message(), "Failed to find the page with index 3");
}

#[test]
fn context_error_with_source_minimizes_its_first_letter() {
    let error = ContextError::with_error("Failed to parse font".to_string(), "Unknown magic".to_string());
    assert_eq!(error.source_error, Some("Unknown magic".to_string()));
    assert_eq!(error.message(), "Failed to parse font: unknown magic");
}

#[test]
fn traceable_error_messages() {
    let error = TraceableError::with_context("Failed to render".to_string());
    assert_eq!(error.message(), "Failed to render");
    let error = TraceableError::with_source_message("Failed to read".to_string(), "no such file".to_string());
    assert_eq!(error.message(), "Failed to read - No such file");
    let error = TraceableError::with_source("Failed to parse".to_string(), anyhow::Error::msg("bad token"));
    assert_eq!(error.source_message(), Some("bad token".to_string()));
    assert_eq!(error.message(), "Failed to parse - Bad token");
    assert_eq!(error.context(), "Failed to parse");
}

#[test]
fn timestamp_with_a_zero_offset() {
    let epoch = Timestamp {
        year: 1970,
        month: 1,
        day: 1,
        hour: 0,
        minute: 0,
        second: 0,
        offset_hours: 0,
        offset_minutes: 0,
        offset_negative: false,
    };
    assert_eq!(to_pdf_timestamp_format(&epoch), "D:19700101000000+00'00'");
}

#[test]
fn timestamp_example_of_the_pdf_format() {
    let date = Timestamp {
        year: 2017,
        month: 5,
        day: 5,
        hour: 15,
        minute: 2,
        second: 24,
        offset_hours: 2,
        offset_minutes: 0,
        offset_negative: false,
    };
    assert_eq!(to_pdf_timestamp_format(&date), "D:20170505150224+02'00'");
}

#[test]
fn timestamp_with_a_negative_offset() {
    let date = Timestamp {
        year: 999,
        month: 12,
        day: 31,
        hour: 23,
        minute: 59,
        second: 59,
        offset_hours: -5,
        offset_minutes: -30,
        offset_negative: true,
    };
    assert_eq!(to_pdf_timestamp_format(&date), "D:09991231235959-05'30'");
}

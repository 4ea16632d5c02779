use mynotes::config::{AppConfig, AppConfigDueAction};
use mynotes::date::CalDate;
use mynotes::mail::{smtp_security, SmtpSecurity};
use mynotes::settings::{get_markdown_options, render_money, user_process_markdown, MarkdownOptions};

fn date(s: &str) -> CalDate {
    CalDate::parse_iso(s).unwrap()
}

#[test]
fn default_settings() {
    let c = AppConfig::default();
    assert_eq!(c.due_action.title, "Due actions");
    assert_eq!(c.due_action.empty_str, "None");
    assert_eq!(c.due_action.ignore_future_days, 60);
    assert_eq!(c.due_action.warn_future_days, 30);
    assert_eq!(c.due_action.alert_future_days, 0);
    assert!(c.users.is_empty());
    assert!(c.mail.is_none());
    assert_eq!(c.content_path, "");
}

#[test]
fn css_style_by_remaining_days() {
    let cfg = AppConfigDueAction::default();
    let now = date("2026-05-30");
    assert_eq!(cfg.get_css_style(&now, &date("2026-06-29")), "mynotes-date-ok");
    assert_eq!(cfg.get_css_style(&now, &date("2026-06-28")), "mynotes-date-warn");
    assert_eq!(cfg.get_css_style(&now, &date("2026-05-30")), "mynotes-date-warn");
    assert_eq!(cfg.get_css_style(&now, &date("2026-05-29")), "mynotes-date-alert");
    // across a leap day and a year end
    let now = date("2023-12-31");
    assert_eq!(cfg.get_css_style(&now, &date("2024-01-30")), "mynotes-date-ok");
    assert_eq!(cfg.get_css_style(&now, &date("2024-01-29")), "mynotes-date-warn");
}

#[test]
fn dates_read_and_written() {
    assert_eq!(date("2024-02-29").to_iso_string(), "2024-02-29");
    assert!(CalDate::parse_iso("2023-02-29").is_none());
    assert!(CalDate::parse_iso("2100-02-29").is_none());
    assert!(CalDate::parse_iso("2000-02-29").is_some());
    assert!(CalDate::parse_iso("2026-00-10").is_none());
    assert!(CalDate::parse_iso("2026-04-31").is_none());
    assert!(CalDate::parse_iso("2026-4-3").is_none());
    assert!(CalDate::parse_iso("20260403").is_none());
    assert_eq!(date("0007-01-02").to_iso_string(), "0007-01-02");
    let d = date("2026-05-30");
    assert_eq!((d.year(), d.month(), d.day()), (2026, 5, 30));
    assert!(d.is_before_or_same(&date("2026-05-30")));
    assert!(d.is_before_or_same(&date("2026-06-01")));
    assert!(!d.is_before_or_same(&date("2025-12-31")));
    assert_eq!(date("2026-01-02").julian_day() - date("2025-12-31").julian_day(), 2);
}

#[test]
fn markdown_settings() {
    assert_eq!(
        get_markdown_options(),
        MarkdownOptions { tables: true, strikethrough: true, gfm: true }
    );
    assert_eq!(render_money("-3.50"), r#"<span class="mynotes-money">-3.50 €</span>"#);
}

#[test]
fn smtp_security_by_port() {
    assert_eq!(smtp_security(465), SmtpSecurity::ImplicitTls);
    assert_eq!(smtp_security(587), SmtpSecurity::StartTls);
    assert_eq!(smtp_security(25), SmtpSecurity::StartTls);
}

/// The Julian day number of a proleptic Gregorian date, computed by days.
fn julian_day_by_days(y: i64, m: i64, d: i64) -> i64 {
    let leap = |y: i64| (y % 4 == 0 && y % 100 != 0) || y % 400 == 0;
    let month_days = [31, if leap(y) { 29 } else { 28 }, 31, 30, 31, 30, 31, 31, 30, 31, 30, 31];
    // 0000-01-01 is Julian day 1 721 060
    let mut n: i64 = 1_721_060;
    let full_years = y;
    n += 365 * full_years + (full_years + 3) / 4 - (full_years + 99) / 100 + (full_years + 399) / 400;
    for k in 0..(m - 1) as usize {
        n += month_days[k];
    }
    n + d - 1
}

#[test]
fn julian_days_of_dates() {
    assert_eq!(date("2000-01-01").julian_day(), 2_451_545);
    assert_eq!(date("2019-01-01").julian_day(), 2_458_485);
    assert_eq!(date("2019-12-31").julian_day(), 2_458_849);
    assert_eq!(date("0000-01-01").julian_day(), 1_721_060);
    for y in (0..=9999).step_by(37).chain([1600, 1900, 2000, 2024, 2100, 9999]) {
        for m in 1..=12u32 {
            for d in 1..=31u32 {
                let text = format!("{y:04}-{m:02}-{d:02}");
                if let Some(cd) = CalDate::parse_iso(&text) {
                    assert_eq!(
                        cd.julian_day() as i64,
                        julian_day_by_days(y as i64, m as i64, d as i64),
                        "on {text}"
                    );
                }
            }
        }
    }
}

#[test]
fn later_due_dates_are_further_away() {
    let cfg = AppConfigDueAction::default();
    let now = date("2026-05-30");
    assert_eq!(cfg.get_css_style(&now, &now), "mynotes-date-warn");
    assert_eq!(date("2026-03-01").julian_day() - date("2026-02-28").julian_day(), 1);
    assert_eq!(date("2024-03-01").julian_day() - date("2024-02-29").julian_day(), 1);
    assert!(date("2026-06-01").julian_day() > date("2026-05-31").julian_day());
}

#[test]
fn money_in_any_decimal_digits() {
    let mut body = "Pay 12.50€ or -3€".to_string();
    user_process_markdown(&mut body);
    assert_eq!(
        body,
        format!("Pay {} or {}", render_money("12.50"), render_money("-3"))
    );
    // Arabic-Indic three, and fullwidth one two
    let mut body = "\u{663}€ and \u{ff11}\u{ff12}.\u{ff10}\u{ff10}€".to_string();
    user_process_markdown(&mut body);
    assert_eq!(
        body,
        format!(
            "{} and {}",
            render_money("\u{663}"),
            render_money("\u{ff11}\u{ff12}.\u{ff10}\u{ff10}")
        )
    );
    // superscript two is not a decimal digit
    let mut body = "\u{b2}€".to_string();
    user_process_markdown(&mut body);
    assert_eq!(body, "\u{b2}€");
}

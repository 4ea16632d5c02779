//! Application settings.

pub mod field_duration;

use vstd::prelude::*;
use crate::date::{CalDate, julian_day, valid_date, date_le, law_julian_day_order};

verus! {

/// Application settings, read from the `app` section of the server settings.
pub struct AppConfig {
    /// Directory holding the markdown files.
    pub content_path: String,
    /// Settings of due actions.
    pub due_action: AppConfigDueAction,
    /// User names and their passwords, for basic authentication. The settings
    /// give them as a map, so each name comes once; were a name to come twice,
    /// authentication would use its first entry.
    pub users: Vec<(String, String)>,
    /// HTML template file, relative to `content_path`.
    pub template_path: String,
    /// File storing the application state.
    pub persist_path: String,
    /// Settings to send mails about due actions.
    pub mail: Option<AppConfigMail>,
}

/// Settings of due actions.
pub struct AppConfigDueAction {
    /// Title of the due actions in the index page.
    pub title: String,
    /// Text shown when there is no due action.
    pub empty_str: String,
    /// Due actions this many days or more in the future are not listed.
    pub ignore_future_days: i64,
    /// Due actions this many days or more in the future are fine.
    pub warn_future_days: i64,
    /// Due actions this many days or more in the future (and below the warning
    /// limit) get a warning; closer or past ones an alert.
    pub alert_future_days: i64,
}

/// Settings to send mails about due actions.
pub struct AppConfigMail {
    pub title: String,
    pub smtp_addr: String,
    pub smtp_port: u16,
    pub smtp_user: String,
    pub smtp_password: String,
    pub sender_email: String,
}

/// The CSS class of a date `remaining` days ahead.
pub open spec fn css_style_for(cfg: &AppConfigDueAction, remaining: int) -> Seq<char> {
    if remaining >= cfg.warn_future_days {
        "mynotes-date-ok"@
    } else if remaining >= cfg.alert_future_days {
        "mynotes-date-warn"@
    } else {
        "mynotes-date-alert"@
    }
}

/// Days from `now` to `due`.
pub open spec fn days_until(now: (int, int, int), due: (int, int, int)) -> int {
    julian_day(due.0, due.1, due.2) - julian_day(now.0, now.1, now.2)
}

/// The class of a date depends on the configured thresholds, whatever they
/// are: a date at least `warn_future_days` days ahead is "ok", one at least
/// `alert_future_days` but fewer than `warn_future_days` days ahead is "warn",
/// one fewer than both is "alert"; and a date further ahead is never in a more
/// urgent class.
pub proof fn law_css_style_thresholds(cfg: &AppConfigDueAction, remaining: int, later: int)
    requires
        remaining <= later,
    ensures
        remaining >= cfg.warn_future_days ==> css_style_for(cfg, remaining) == "mynotes-date-ok"@,
        cfg.alert_future_days <= remaining < cfg.warn_future_days ==> css_style_for(cfg, remaining)
            == "mynotes-date-warn"@,
        remaining < cfg.alert_future_days && remaining < cfg.warn_future_days ==> css_style_for(
            cfg,
            remaining,
        ) == "mynotes-date-alert"@,
        css_style_for(cfg, remaining) == "mynotes-date-ok"@ ==> css_style_for(cfg, later)
            == "mynotes-date-ok"@,
        css_style_for(cfg, remaining) != "mynotes-date-alert"@ ==> css_style_for(cfg, later)
            != "mynotes-date-alert"@,
{
    reveal_strlit("mynotes-date-ok");
    reveal_strlit("mynotes-date-warn");
    reveal_strlit("mynotes-date-alert");
}

/// A due date is zero days away on the day itself, and of two valid due
/// dates the later one is at least as many days away, seen from any valid day.
pub proof fn law_days_until(now: (int, int, int), a: (int, int, int), b: (int, int, int))
    requires
        valid_date(now.0, now.1, now.2),
        valid_date(a.0, a.1, a.2),
        valid_date(b.0, b.1, b.2),
    ensures
        days_until(now, now) == 0,
        date_le(a, b) <==> days_until(now, a) <= days_until(now, b),
        a != b ==> days_until(now, a) != days_until(now, b),
{
    law_julian_day_order(a, b);
}

impl AppConfigDueAction {
    /// CSS class for a due date, seen from `now`.
    pub fn get_css_style(&self, now: &CalDate, due_date: &CalDate) -> (r: &'static str)
        ensures
            r@ == css_style_for(self, days_until(now@, due_date@)),
    {
        let remaining_days = (due_date.julian_day() as i64) - (now.julian_day() as i64);
        if remaining_days >= self.warn_future_days {
            "mynotes-date-ok"
        } else if remaining_days >= self.alert_future_days {
            "mynotes-date-warn"
        } else {
            "mynotes-date-alert"
        }
    }
}

impl Default for AppConfigDueAction {
    fn default() -> (r: Self)
        ensures
            r.title@ == "Due actions"@,
            r.empty_str@ == "None"@,
            r.ignore_future_days == 60,
            r.warn_future_days == 30,
            r.alert_future_days == 0,
    {
        AppConfigDueAction {
            title: String::from_str("Due actions"),
            empty_str: String::from_str("None"),
            ignore_future_days: 60,
            warn_future_days: 30,
            alert_future_days: 0,
        }
    }
}

impl Default for AppConfig {
    fn default() -> (r: Self)
        ensures
            r.content_path@ == Seq::<char>::empty(),
            r.due_action.title@ == "Due actions"@,
            r.due_action.empty_str@ == "None"@,
            r.due_action.ignore_future_days == 60,
            r.due_action.warn_future_days == 30,
            r.due_action.alert_future_days == 0,
            r.users@.len() == 0,
            r.template_path@ == Seq::<char>::empty(),
            r.persist_path@ == Seq::<char>::empty(),
            r.mail is None,
    {
        AppConfig {
            content_path: String::new(),
            due_action: AppConfigDueAction::default(),
            users: Vec::new(),
            template_path: String::new(),
            persist_path: String::new(),
            mail: None,
        }
    }
}

} // verus!

//! The plain data shapes of the command surface: what the host hands the
//! library and what it gets back. Pure data — the verified operations they
//! feed live in the other modules.

use vstd::prelude::*;

verus! {

/// A signed-in operator, with the permission names read from the store.
#[derive(Debug)]
pub struct AuthenticatedUser {
    pub id: i32,
    pub username: String,
    pub name: String,
    pub permissions: Vec<String>,
    pub preferences: String,
}

/// The first-run administrator setup request.
#[derive(Debug)]
pub struct AdminSetupRequest {
    pub password: String,
    pub user_data: UserData,
}

/// A new annotation on a report.
#[derive(Debug)]
pub struct EventData {
    pub originator_id: Option<i32>,
    pub target_id: Option<i32>,
    pub report_id: i32,
    pub comment: String,
}

/// One stored annotation.
#[derive(Debug)]
pub struct EventResponse {
    pub id: i32,
    pub originator_id: Option<i32>,
    pub target_id: Option<i32>,
    pub report_id: i32,
    pub comment: String,
    pub created_at: String,
    pub complete: bool,
    pub completed_date: Option<String>,
}

/// A change to an annotation.
#[derive(Debug)]
pub struct UpdateEventData {
    pub comment: Option<String>,
    pub complete: Option<bool>,
}

/// A new finished good.
#[derive(Debug)]
pub struct FGData {
    pub fg: String,
    pub rev: String,
    pub customer: String,
}

/// One stored finished good.
#[derive(Debug)]
pub struct FGResponse {
    pub id: i32,
    pub fg: String,
    pub rev: String,
    pub customer: String,
}

/// A finished good with its report definitions.
#[derive(Debug)]
pub struct FGWithReportsResponse {
    pub id: i32,
    pub fg: String,
    pub rev: String,
    pub customer: String,
    pub reports: Vec<ReportResponse>,
}

/// A report definition with its finished good.
#[derive(Debug)]
pub struct ReportWithFGResponse {
    pub id: i32,
    pub fg_id: i32,
    pub attributes: String,
    pub fg: FGResponse,
}

/// What a bulk import did.
#[derive(Debug)]
pub struct ImportResult {
    pub files_processed: usize,
    pub records_imported: usize,
}

/// The optional filters of a manual-results search.
#[derive(Debug)]
pub struct ManualTestFilter {
    pub fg: Option<String>,
    pub batch: Option<String>,
    pub test_name: Option<String>,
    pub serial_num: Option<String>,
    pub date_from: Option<String>,
    pub date_to: Option<String>,
}

/// One stored report definition.
#[derive(Debug)]
pub struct ReportResponse {
    pub id: i32,
    pub fg_id: i32,
    pub attributes: String,
}

/// A new or changed user.
#[derive(Debug)]
pub struct UserData {
    pub name: String,
    pub username: String,
    pub preferences: String,
    pub permissions: String,
    pub added_by: Option<i32>,
}

/// One stored user.
#[derive(Debug)]
pub struct UserResponse {
    pub id: i32,
    pub name: String,
    pub username: String,
    pub preferences: String,
    pub permissions: String,
    pub created_at: String,
    pub updated_at: String,
}

/// The display preferences kept per user.
#[derive(Debug, Clone)]
pub struct UserPreferences {
    pub theme: String,
    pub language: String,
    pub notifications: bool,
}

impl Default for UserPreferences {
    /// The out-of-the-box preferences.
    fn default() -> (r: UserPreferences)
        ensures
            r.theme@ == "system"@,
            r.language@ == "en"@,
            r.notifications,
    {
        UserPreferences {
            theme: String::from_str("system"),
            language: String::from_str("en"),
            notifications: true,
        }
    }
}

/// A preferences update request.
#[derive(Debug)]
pub struct UpdatePreferencesData {
    pub preferences: UserPreferences,
}

/// How the watcher answers a status query.
#[derive(Debug)]
pub struct WatcherStatusResponse {
    pub role: String,
    pub master_user: Option<String>,
    pub is_active: bool,
    pub is_paused: bool,
    pub can_force_master: bool,
}

/// The two configured Voltech paths.
#[derive(Debug)]
pub struct VoltechSettings {
    pub server_path: String,
    pub db_path: String,
}

/// The optional filters of an error listing.
#[derive(Debug)]
pub struct ErrorFilter {
    pub acknowledged: Option<bool>,
    pub file_path: Option<String>,
    pub date_from: Option<String>,
    pub date_to: Option<String>,
}

/// An inclusive date range.
#[derive(Debug)]
pub struct DateRangeFilter {
    pub start_date: String,
    pub end_date: String,
}

/// A command to the running watcher loop.
#[derive(Debug, Clone)]
pub enum WatcherControl {
    /// Hold off scans but keep the heartbeat alive.
    Pause,
    /// Resume scanning at the next tick.
    Resume,
    /// Release the lock and exit.
    Stop,
}

/// One scan cycle's progress report.
#[derive(Debug)]
pub struct BatchProgressEvent {
    pub files_processed: usize,
    pub records_inserted: usize,
    pub errors: Vec<String>,
}

} // verus!

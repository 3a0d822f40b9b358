//! The monitor's settings, taken from environment variables.

use vstd::prelude::*;
use vstd::string::StringExecFns;

use crate::text::{
    chars_of, digits_of, end_characters_are_dropped, is_blank, is_space, parse_signed,
    parse_unsigned, pieces, same, signed_is_read_back, signed_of, split, split_keeps_unmarked,
    split_of, split_of_joined, string_of, trim, trim_end_char, trim_end_char_of, trim_of,
    trim_undoes_padding, unsigned_is_read_back, unsigned_of,
};

verus! {

/// The settings.
pub struct Config {
    pub listen_addr: String,
    pub db_path: String,
    pub static_dir: String,
    pub alert_log: String,
    pub log_files: Vec<String>,
    pub interval_secs: u64,
    pub retention_days: i64,
    pub log_retention_days: i64,
    pub oidc_issuer: String,
    pub oidc_client_id: String,
    pub oidc_client_secret: String,
    pub oidc_redirect_uri: String,
    pub ingest_token: String,
}

/// The mathematical form of [`Config`].
pub struct ConfigView {
    pub listen_addr: Seq<char>,
    pub db_path: Seq<char>,
    pub static_dir: Seq<char>,
    pub alert_log: Seq<char>,
    pub log_files: Seq<Seq<char>>,
    pub interval_secs: u64,
    pub retention_days: i64,
    pub log_retention_days: i64,
    pub oidc_issuer: Seq<char>,
    pub oidc_client_id: Seq<char>,
    pub oidc_client_secret: Seq<char>,
    pub oidc_redirect_uri: Seq<char>,
    pub ingest_token: Seq<char>,
}

impl View for Config {
    type V = ConfigView;

    open spec fn view(&self) -> ConfigView {
        ConfigView {
            listen_addr: self.listen_addr@,
            db_path: self.db_path@,
            static_dir: self.static_dir@,
            alert_log: self.alert_log@,
            log_files: self.log_files@.map_values(|s: String| s@),
            interval_secs: self.interval_secs,
            retention_days: self.retention_days,
            log_retention_days: self.log_retention_days,
            oidc_issuer: self.oidc_issuer@,
            oidc_client_id: self.oidc_client_id@,
            oidc_client_secret: self.oidc_client_secret@,
            oidc_redirect_uri: self.oidc_redirect_uri@,
            ingest_token: self.ingest_token@,
        }
    }
}

/// One environment variable.
pub struct Variable {
    pub name: String,
    pub value: String,
}

/// The value of the first variable called `name`.
pub open spec fn variable_of(env: Seq<Variable>, name: Seq<char>) -> Option<Seq<char>>
    decreases env.len(),
{
    if env.len() == 0 {
        None
    } else if env.first().name@ == name {
        Some(env.first().value@)
    } else {
        variable_of(env.drop_first(), name)
    }
}

/// The value of a variable, or else `default`.
pub open spec fn variable_or(env: Seq<Variable>, name: Seq<char>, default: Seq<char>) -> Seq<
    char,
> {
    match variable_of(env, name) {
        Some(value) => value,
        None => default,
    }
}

/// The value of a variable as an unsigned number, or else `default`.
pub open spec fn unsigned_or(env: Seq<Variable>, name: Seq<char>, default: u64) -> u64 {
    match variable_of(env, name) {
        Some(value) => match unsigned_of(value, u64::MAX as nat) {
            Some(n) => n as u64,
            None => default,
        },
        None => default,
    }
}

/// The value of a variable as a signed number, or else `default`.
pub open spec fn signed_or(env: Seq<Variable>, name: Seq<char>, default: i64) -> i64 {
    match variable_of(env, name) {
        Some(value) => match signed_of(value) {
            Some(n) => n as i64,
            None => default,
        },
        None => default,
    }
}

/// The entries of a comma-separated list, trimmed; empty ones do not count.
pub open spec fn comma_list_of(s: Seq<char>) -> Seq<Seq<char>> {
    split_of(s, ',').map_values(|piece: Seq<char>| trim_of(piece)).filter(
        |piece: Seq<char>| piece.len() > 0,
    )
}

/// The settings that the given variables make.
pub open spec fn config_of(env: Seq<Variable>) -> ConfigView {
    ConfigView {
        listen_addr: variable_or(env, "MONITOR_LISTEN"@, "127.0.0.1:8800"@),
        db_path: variable_or(env, "MONITOR_DB_PATH"@, "./data/monitor.db"@),
        static_dir: variable_or(env, "MONITOR_STATIC_DIR"@, "./ui"@),
        alert_log: variable_or(env, "MONITOR_ALERT_LOG"@, "./data/alerts.log"@),
        log_files: comma_list_of(
            variable_or(env, "MONITOR_LOG_FILES"@, "/var/log/syslog,/var/log/auth.log"@),
        ),
        interval_secs: unsigned_or(env, "MONITOR_INTERVAL"@, 60),
        retention_days: signed_or(env, "MONITOR_RETENTION_DAYS"@, 30),
        log_retention_days: signed_or(env, "MONITOR_LOG_RETENTION_DAYS"@, 7),
        oidc_issuer: variable_or(env, "MONITOR_OIDC_ISSUER"@, "https://auth.olibuijr.com"@),
        oidc_client_id: variable_or(env, "MONITOR_OIDC_CLIENT_ID"@, Seq::empty()),
        oidc_client_secret: variable_or(env, "MONITOR_OIDC_CLIENT_SECRET"@, Seq::empty()),
        oidc_redirect_uri: variable_or(
            env,
            "MONITOR_OIDC_REDIRECT_URI"@,
            base_url_of(env) + "/auth/callback"@,
        ),
        ingest_token: variable_or(env, "MONITOR_INGEST_TOKEN"@, Seq::empty()),
    }
}

/// The address of the monitor, without slashes at its end.
pub open spec fn base_url_of(env: Seq<Variable>) -> Seq<char> {
    trim_end_char_of(
        variable_or(env, "MONITOR_BASE_URL"@, "https://monitor.olibuijr.com"@),
        '/',
    )
}

fn variable<'a>(env: &'a [Variable], name: &str) -> (value: Option<&'a String>)
    ensures
        match variable_of(env@, name@) {
            Some(v) => value matches Some(found) && found@ == v,
            None => value is None,
        },
{
    let mut i: usize = 0;
    assert(env@.skip(0) =~= env@);
    while i < env.len()
        invariant
            i <= env.len(),
            variable_of(env@, name@) == variable_of(env@.skip(i as int), name@),
        decreases env.len() - i,
    {
        assert(env@.skip(i as int).drop_first() =~= env@.skip(i + 1));
        if same(env[i].name.as_str(), name) {
            return Some(&env[i].value);
        }
        i += 1;
    }
    None
}

fn text_setting(env: &[Variable], name: &str, default: &str) -> (value: String)
    ensures
        value@ == variable_or(env@, name@, default@),
{
    match variable(env, name) {
        Some(v) => v.clone(),
        None => default.to_string(),
    }
}

fn unsigned_setting(env: &[Variable], name: &str, default: u64) -> (value: u64)
    ensures
        value == unsigned_or(env@, name@, default),
{
    match variable(env, name) {
        Some(v) => match parse_unsigned(chars_of(v.as_str()).as_slice(), u64::MAX) {
            Some(n) => n,
            None => default,
        },
        None => default,
    }
}

fn signed_setting(env: &[Variable], name: &str, default: i64) -> (value: i64)
    ensures
        value == signed_or(env@, name@, default),
{
    match variable(env, name) {
        Some(v) => match parse_signed(chars_of(v.as_str()).as_slice()) {
            Some(n) => n,
            None => default,
        },
        None => default,
    }
}

/// The entries of a comma-separated list.
pub fn comma_list(s: &str) -> (list: Vec<String>)
    ensures
        list@.map_values(|s: String| s@) == comma_list_of(s@),
{
    let chars = chars_of(s);
    let parts = split(chars.as_slice(), ',');
    let ghost trimmed = split_of(s@, ',').map_values(|piece: Seq<char>| trim_of(piece));
    let ghost keep = |piece: Seq<char>| piece.len() > 0;
    let mut list: Vec<String> = Vec::new();
    let mut i: usize = 0;
    reveal(Seq::filter);
    assert(list@.map_values(|s: String| s@) =~= trimmed.take(0).filter(keep));
    while i < parts.len()
        invariant
            i <= parts.len(),
            pieces(parts@) == split_of(s@, ','),
            trimmed == split_of(s@, ',').map_values(|piece: Seq<char>| trim_of(piece)),
            keep == (|piece: Seq<char>| piece.len() > 0),
            list@.map_values(|s: String| s@) == trimmed.take(i as int).filter(keep),
        decreases parts.len() - i,
    {
        reveal(Seq::filter);
        let piece = trim(parts[i]);
        let ghost before = list@;
        assert(pieces(parts@)[i as int] == parts@[i as int]@);
        assert(trimmed[i as int] == piece@);
        assert(trimmed.take(i + 1).drop_last() =~= trimmed.take(i as int));
        if piece.len() > 0 {
            list.push(string_of(piece));
            assert(list@.map_values(|s: String| s@) =~= before.map_values(|s: String| s@).push(
                piece@,
            ));
        }
        i += 1;
    }
    assert(trimmed.take(parts@.len() as int) =~= trimmed);
    list
}

/// Reads the settings from the given environment variables.
pub fn get(env: &[Variable]) -> (cfg: Config)
    ensures
        cfg@ == config_of(env@),
{
    let log_files = comma_list(
        text_setting(env, "MONITOR_LOG_FILES", "/var/log/syslog,/var/log/auth.log").as_str(),
    );
    let base = chars_of(
        text_setting(env, "MONITOR_BASE_URL", "https://monitor.olibuijr.com").as_str(),
    );
    let base_url = string_of(trim_end_char(base.as_slice(), '/'));
    let callback = base_url.concat("/auth/callback");
    proof {
        reveal_strlit("");
        assert(""@ =~= Seq::<char>::empty());
    }
    Config {
        listen_addr: text_setting(env, "MONITOR_LISTEN", "127.0.0.1:8800"),
        db_path: text_setting(env, "MONITOR_DB_PATH", "./data/monitor.db"),
        static_dir: text_setting(env, "MONITOR_STATIC_DIR", "./ui"),
        alert_log: text_setting(env, "MONITOR_ALERT_LOG", "./data/alerts.log"),
        log_files,
        interval_secs: unsigned_setting(env, "MONITOR_INTERVAL", 60),
        retention_days: signed_setting(env, "MONITOR_RETENTION_DAYS", 30),
        log_retention_days: signed_setting(env, "MONITOR_LOG_RETENTION_DAYS", 7),
        oidc_issuer: text_setting(env, "MONITOR_OIDC_ISSUER", "https://auth.olibuijr.com"),
        oidc_client_id: text_setting(env, "MONITOR_OIDC_CLIENT_ID", ""),
        oidc_client_secret: text_setting(env, "MONITOR_OIDC_CLIENT_SECRET", ""),
        oidc_redirect_uri: text_setting(env, "MONITOR_OIDC_REDIRECT_URI", callback.as_str()),
        ingest_token: text_setting(env, "MONITOR_INGEST_TOKEN", ""),
    }
}

/// A variable is found by its name, whatever stands before and behind it, unless an
/// earlier one has the same name.
pub proof fn variable_is_found(before: Seq<Variable>, variable: Variable, rest: Seq<Variable>)
    requires
        forall|i: int| 0 <= i < before.len() ==> (#[trigger] before[i]).name@ != variable.name@,
    ensures
        variable_of(before.push(variable) + rest, variable.name@) == Some(variable.value@),
        variable_of(before, variable.name@) is None,
    decreases before.len(),
{
    let all = before.push(variable) + rest;
    if before.len() > 0 {
        let shorter = before.drop_first();
        assert(before[0].name@ != variable.name@);
        assert(all.first() == before[0]);
        assert(all.drop_first() =~= shorter.push(variable) + rest);
        assert forall|i: int| 0 <= i < shorter.len() implies (#[trigger] shorter[i]).name@
            != variable.name@ by {
            assert(before[i + 1] == shorter[i]);
        }
        variable_is_found(shorter, variable, rest);
    }
}

/// Every setting of a text has its own variable, and its default without it.
pub proof fn text_settings_come_from_their_variables(env: Seq<Variable>, value: Seq<char>)
    ensures
        variable_of(env, "MONITOR_LISTEN"@) == Some(value) ==> config_of(env).listen_addr == value,
        variable_of(env, "MONITOR_LISTEN"@) is None ==> config_of(env).listen_addr
            == "127.0.0.1:8800"@,
        variable_of(env, "MONITOR_DB_PATH"@) == Some(value) ==> config_of(env).db_path == value,
        variable_of(env, "MONITOR_DB_PATH"@) is None ==> config_of(env).db_path
            == "./data/monitor.db"@,
        variable_of(env, "MONITOR_STATIC_DIR"@) == Some(value) ==> config_of(env).static_dir
            == value,
        variable_of(env, "MONITOR_STATIC_DIR"@) is None ==> config_of(env).static_dir == "./ui"@,
        variable_of(env, "MONITOR_ALERT_LOG"@) == Some(value) ==> config_of(env).alert_log == value,
        variable_of(env, "MONITOR_ALERT_LOG"@) is None ==> config_of(env).alert_log
            == "./data/alerts.log"@,
        variable_of(env, "MONITOR_OIDC_ISSUER"@) == Some(value) ==> config_of(env).oidc_issuer
            == value,
        variable_of(env, "MONITOR_OIDC_ISSUER"@) is None ==> config_of(env).oidc_issuer
            == "https://auth.olibuijr.com"@,
        variable_of(env, "MONITOR_OIDC_CLIENT_ID"@) == Some(value) ==> config_of(
            env,
        ).oidc_client_id == value,
        variable_of(env, "MONITOR_OIDC_CLIENT_ID"@) is None ==> config_of(env).oidc_client_id.len()
            == 0,
        variable_of(env, "MONITOR_OIDC_CLIENT_SECRET"@) == Some(value) ==> config_of(
            env,
        ).oidc_client_secret == value,
        variable_of(env, "MONITOR_OIDC_CLIENT_SECRET"@) is None ==> config_of(
            env,
        ).oidc_client_secret.len() == 0,
        variable_of(env, "MONITOR_OIDC_REDIRECT_URI"@) == Some(value) ==> config_of(
            env,
        ).oidc_redirect_uri == value,
        variable_of(env, "MONITOR_INGEST_TOKEN"@) == Some(value) ==> config_of(env).ingest_token
            == value,
        variable_of(env, "MONITOR_INGEST_TOKEN"@) is None ==> config_of(env).ingest_token.len()
            == 0,
{
}

/// Every setting of a number takes every number of its type, and its default without
/// one.
pub proof fn number_settings_take_every_number(env: Seq<Variable>, n: nat)
    ensures
        variable_of(env, "MONITOR_INTERVAL"@) == Some(digits_of(n)) ==> config_of(env).interval_secs
            == if n <= u64::MAX {
            n
        } else {
            60
        },
        variable_of(env, "MONITOR_INTERVAL"@) is None ==> config_of(env).interval_secs == 60,
        variable_of(env, "MONITOR_RETENTION_DAYS"@) == Some(digits_of(n)) ==> config_of(
            env,
        ).retention_days == if n <= i64::MAX {
            n
        } else {
            30
        },
        variable_of(env, "MONITOR_RETENTION_DAYS"@) == Some(seq!['-'] + digits_of(n)) && n
            <= i64::MAX ==> config_of(env).retention_days == -n,
        variable_of(env, "MONITOR_RETENTION_DAYS"@) is None ==> config_of(env).retention_days == 30,
        variable_of(env, "MONITOR_LOG_RETENTION_DAYS"@) == Some(digits_of(n)) ==> config_of(
            env,
        ).log_retention_days == if n <= i64::MAX {
            n
        } else {
            7
        },
        variable_of(env, "MONITOR_LOG_RETENTION_DAYS"@) == Some(seq!['-'] + digits_of(n)) && n
            <= i64::MAX ==> config_of(env).log_retention_days == -n,
        variable_of(env, "MONITOR_LOG_RETENTION_DAYS"@) is None ==> config_of(
            env,
        ).log_retention_days == 7,
{
    unsigned_is_read_back(n, u64::MAX as nat);
    signed_is_read_back(n);
}

/// Without a redirect address of its own the monitor uses its callback below its base
/// address, whatever slashes end that.
pub proof fn callback_stands_below_the_base(env: Seq<Variable>, address: Seq<char>, n: nat)
    requires
        variable_of(env, "MONITOR_OIDC_REDIRECT_URI"@) is None,
        variable_of(env, "MONITOR_BASE_URL"@) == Some(address + Seq::new(n, |i: int| '/')),
        address.len() > 0 ==> address.last() != '/',
    ensures
        config_of(env).oidc_redirect_uri == address + "/auth/callback"@,
{
    end_characters_are_dropped(address, '/', n);
}

/// A list of two parts has the entries of both.
pub proof fn list_parts_add_up(a: Seq<char>, b: Seq<char>)
    ensures
        comma_list_of(a.push(',') + b) == comma_list_of(a) + comma_list_of(b),
{
    split_of_joined(a, b, ',');
    let f = |piece: Seq<char>| trim_of(piece);
    let p = |piece: Seq<char>| piece.len() > 0;
    let pa = split_of(a, ',');
    let pb = split_of(b, ',');
    assert((pa + pb).map_values(f) =~= pa.map_values(f) + pb.map_values(f));
    Seq::filter_distributes_over_add(pa.map_values(f), pb.map_values(f), p);
}

/// One entry of a list is what stands between white space, and blank ones do not count.
pub proof fn list_entry_is_trimmed(pad: Seq<char>, entry: Seq<char>, end: Seq<char>)
    requires
        is_blank(pad),
        is_blank(end),
        !entry.contains(','),
        entry.len() > 0 ==> !is_space(entry.first()) && !is_space(entry.last()),
    ensures
        comma_list_of(pad + entry + end) == if entry.len() > 0 {
            seq![entry]
        } else {
            Seq::empty()
        },
{
    reveal(Seq::filter);
    let all = pad + entry + end;
    assert forall|i: int| 0 <= i < all.len() implies all[i] != ',' by {
        if i < pad.len() {
            assert(is_space(pad[i]));
        } else if i < pad.len() + entry.len() {
            assert(all[i] == entry[i - pad.len()]);
        } else {
            assert(is_space(end[i - pad.len() - entry.len()]));
        }
    }
    split_keeps_unmarked(all, ',');
    trim_undoes_padding(pad, entry, end);
    let f = |piece: Seq<char>| trim_of(piece);
    let p = |piece: Seq<char>| piece.len() > 0;
    let one = seq![all].map_values(f);
    assert(one.drop_last() =~= Seq::empty());
    assert(one.drop_last().filter(p) =~= Seq::empty());
    assert(one.last() == entry);
    assert(one.filter(p) =~= if entry.len() > 0 {
        seq![entry]
    } else {
        Seq::empty()
    });
}

/// The log files are the entries of the list that their variable gives.
pub proof fn log_files_are_a_list(env: Seq<Variable>, list: Seq<char>)
    requires
        variable_of(env, "MONITOR_LOG_FILES"@) == Some(list),
    ensures
        config_of(env).log_files == comma_list_of(list),
{
}

/// Without its variable the log files are those of the system; what is no number leaves a
/// number at its default; and a number is taken as it is read.
pub proof fn settings_have_defaults(env: Seq<Variable>, value: Seq<char>)
    ensures
        variable_of(env, "MONITOR_LOG_FILES"@) is None ==> config_of(env).log_files == seq![
            "/var/log/syslog"@,
            "/var/log/auth.log"@,
        ],
        variable_of(env, "MONITOR_INTERVAL"@) == Some(value) ==> config_of(env).interval_secs
            == match unsigned_of(value, 0xffff_ffff_ffff_ffff) {
            Some(n) => n as u64,
            None => 60,
        },
        variable_of(env, "MONITOR_RETENTION_DAYS"@) == Some(value) ==> config_of(env).retention_days
            == match signed_of(value) {
            Some(n) => n as i64,
            None => 30,
        },
        variable_of(env, "MONITOR_LOG_RETENTION_DAYS"@) == Some(value) ==> config_of(
            env,
        ).log_retention_days == match signed_of(value) {
            Some(n) => n as i64,
            None => 7,
        },
        variable_of(env, "MONITOR_OIDC_REDIRECT_URI"@) is None && variable_of(
            env,
            "MONITOR_BASE_URL"@,
        ) is None ==> config_of(env).oidc_redirect_uri
            == "https://monitor.olibuijr.com/auth/callback"@,
{
    reveal_strlit("/var/log/syslog,/var/log/auth.log");
    reveal_strlit("/var/log/syslog");
    reveal_strlit("/var/log/auth.log");
    reveal_strlit("https://monitor.olibuijr.com");
    reveal_strlit("https://monitor.olibuijr.com/auth/callback");
    reveal_strlit("/auth/callback");
    let a = "/var/log/syslog"@;
    let b = "/var/log/auth.log"@;
    let none = Seq::<char>::empty();
    assert("/var/log/syslog,/var/log/auth.log"@ =~= a.push(',') + b);
    list_parts_add_up(a, b);
    assert(!a.contains(',') && !b.contains(','));
    list_entry_is_trimmed(none, a, none);
    list_entry_is_trimmed(none, b, none);
    assert(none + a + none =~= a && none + b + none =~= b);
    assert(comma_list_of(a.push(',') + b) =~= seq![a, b]);
    let base = "https://monitor.olibuijr.com"@;
    end_characters_are_dropped(base, '/', 0);
    assert(base + Seq::new(0, |i: int| '/') =~= base);
    assert(base + "/auth/callback"@ =~= "https://monitor.olibuijr.com/auth/callback"@);
}

} // verus!

use vstd::prelude::*;

use std::collections::BTreeMap;

use vstd::string::to_string_from_display_ensures;

use rustc_serialize::json::Json;

use crate::text::{chars_of, string_of, trim_text, trimmed};

verus! {

/// The settings record that the rest of the program runs on.
///
/// A value that has passed `validate_config` satisfies `config_is_valid`.
#[derive(Debug)]
pub struct Config {
    pub download_dir: String,
    pub rpc_enabled: bool,
    pub rpc_bind_address: String,
    pub rpc_port: u32,
    pub rpc_authentication_required: bool,
    pub rpc_url: String,
    pub rpc_username: String,
    pub rpc_plain_password: Option<String>,
}

#[verifier::external_type_specification]
#[verifier::external_body]
pub struct ExIoError(std::io::Error);

/// Why a settings file could not be turned into an accepted `Config`.
#[derive(Debug)]
pub enum ConfigReadingError {
    IoError(std::io::Error),
    ParseError(String),
    ValidationError(String),
}

pub open spec fn msg_relative_download_dir() -> Seq<char> {
    "Invalid 'download-dir' value: it must be an absolute path"@
}

pub open spec fn msg_rpc_disabled() -> Seq<char> {
    "RPC is disabled in config"@
}

pub open spec fn msg_empty_bind_address() -> Seq<char> {
    "Invalid 'rpc-bind-address' value: it mustn't be empty"@
}

pub open spec fn msg_missing_password() -> Seq<char> {
    "'rpc-plain-password' is a required option when authentication is enabled"@
}

/// The message of the first rule that `c` breaks, if any, given the
/// download directory's view, the trimmed bind address and the flags.
pub open spec fn validation_failure(
    download_dir: Seq<char>,
    rpc_enabled: bool,
    trimmed_bind_address: Seq<char>,
    auth_required: bool,
    has_password: bool,
) -> Option<Seq<char>> {
    if !(download_dir.len() > 0 && download_dir[0] == '/') {
        Some(msg_relative_download_dir())
    } else if !rpc_enabled {
        Some(msg_rpc_disabled())
    } else if trimmed_bind_address.len() == 0 {
        Some(msg_empty_bind_address())
    } else if auth_required && !has_password {
        Some(msg_missing_password())
    } else {
        None
    }
}

/// The first broken rule of a config, if any.
pub open spec fn config_failure(c: &Config) -> Option<Seq<char>> {
    validation_failure(
        c.download_dir@,
        c.rpc_enabled,
        trimmed(c.rpc_bind_address@),
        c.rpc_authentication_required,
        c.rpc_plain_password is Some,
    )
}

/// A config that every component may rely on.
pub open spec fn config_is_valid(c: &Config) -> bool {
    config_failure(c) is None
}

/// Whether `r` is the validation error that carries the message `m`.
pub open spec fn is_validation_error(r: Result<(), ConfigReadingError>, m: Seq<char>) -> bool {
    match r {
        Err(ConfigReadingError::ValidationError(s)) => s@ == m,
        _ => false,
    }
}

fn validation_error(message: &str) -> (r: Result<(), ConfigReadingError>)
    ensures
        is_validation_error(r, message@),
{
    Err(ConfigReadingError::ValidationError(String::from_str(message)))
}

/// Applies the rules in order and reports the first one broken.
pub fn check_rules(
    download_dir: &str,
    rpc_enabled: bool,
    trimmed_bind_address: &str,
    auth_required: bool,
    has_password: bool,
) -> (r: Result<(), ConfigReadingError>)
    ensures
        match validation_failure(
            download_dir@,
            rpc_enabled,
            trimmed_bind_address@,
            auth_required,
            has_password,
        ) {
            Some(m) => is_validation_error(r, m),
            None => r is Ok,
        },
{
    proof {
        reveal_strlit("Invalid 'download-dir' value: it must be an absolute path");
        reveal_strlit("RPC is disabled in config");
        reveal_strlit("Invalid 'rpc-bind-address' value: it mustn't be empty");
        reveal_strlit("'rpc-plain-password' is a required option when authentication is enabled");
    }
    if download_dir.unicode_len() == 0 || download_dir.get_char(0) != '/' {
        return validation_error("Invalid 'download-dir' value: it must be an absolute path");
    }
    if !rpc_enabled {
        return validation_error("RPC is disabled in config");
    }
    if trimmed_bind_address.unicode_len() == 0 {
        return validation_error("Invalid 'rpc-bind-address' value: it mustn't be empty");
    }
    if auth_required && !has_password {
        return validation_error(
            "'rpc-plain-password' is a required option when authentication is enabled",
        );
    }
    Ok(())
}

/// Checks a decoded config; it is never changed.
pub fn validate_config(config: &Config) -> (r: Result<(), ConfigReadingError>)
    ensures
        match config_failure(config) {
            Some(m) => is_validation_error(r, m),
            None => r is Ok,
        },
{
    let bind = trim_text(config.rpc_bind_address.as_str());
    check_rules(
        config.download_dir.as_str(),
        config.rpc_enabled,
        bind.as_str(),
        config.rpc_authentication_required,
        config.rpc_plain_password.is_some(),
    )
}

/// A key with each hyphen replaced by an underscore.
pub open spec fn normalized_key(k: Seq<char>) -> Seq<char> {
    k.map_values(|c: char| if c == '-' { '_' } else { c })
}

pub open spec fn has_hyphen(k: Seq<char>) -> bool {
    exists|i: int| 0 <= i < k.len() && k[i] == '-'
}

/// The entries of a document with their keys seen as character sequences.
pub open spec fn entry_views<V>(es: Seq<(String, V)>) -> Seq<(Seq<char>, V)> {
    es.map_values(|e: (String, V)| (e.0@, e.1))
}

/// The entries whose keys hold no hyphen, in order.
pub open spec fn plain_entries<V>(es: Seq<(Seq<char>, V)>) -> Seq<(Seq<char>, V)>
    decreases es.len(),
{
    if es.len() == 0 {
        es
    } else if has_hyphen(es.last().0) {
        plain_entries(es.drop_last())
    } else {
        plain_entries(es.drop_last()).push(es.last())
    }
}

/// The entries whose keys hold a hyphen, in order, with their keys rewritten.
pub open spec fn renamed_entries<V>(es: Seq<(Seq<char>, V)>) -> Seq<(Seq<char>, V)>
    decreases es.len(),
{
    if es.len() == 0 {
        es
    } else if has_hyphen(es.last().0) {
        renamed_entries(es.drop_last()).push((normalized_key(es.last().0), es.last().1))
    } else {
        renamed_entries(es.drop_last())
    }
}

/// The entries of a document after key rewriting. The rewritten entries come
/// last, so that when the entries are gathered into an object, where a later
/// entry replaces an earlier one with the same key, a rewritten key wins.
pub open spec fn normalized_entries<V>(es: Seq<(Seq<char>, V)>) -> Seq<(Seq<char>, V)> {
    plain_entries(es) + renamed_entries(es)
}

/// Replaces each hyphen of a key with an underscore.
pub fn normalize_key(key: &str) -> (r: String)
    ensures
        r@ == normalized_key(key@),
{
    let cs = chars_of(key);
    let mut out: Vec<char> = Vec::new();
    let mut i: usize = 0;
    while i < cs.len()
        invariant
            cs@ == key@,
            i <= cs.len(),
            out@ == normalized_key(key@).subrange(0, i as int),
        decreases cs.len() - i,
    {
        let c = cs[i];
        if c == '-' {
            out.push('_');
        } else {
            out.push(c);
        }
        i += 1;
    }
    assert(out@ =~= normalized_key(key@));
    string_of(&out)
}

/// Whether a key holds a hyphen.
pub fn key_has_hyphen(key: &str) -> (r: bool)
    ensures
        r == has_hyphen(key@),
{
    let n = key.unicode_len();
    let mut i: usize = 0;
    while i < n
        invariant
            n == key@.len(),
            i <= n,
            forall|j: int| 0 <= j < i ==> key@[j] != '-',
        decreases n - i,
    {
        if key.get_char(i) == '-' {
            return true;
        }
        i += 1;
    }
    false
}

/// Rewrites the keys of a document's entries: entries whose keys hold no
/// hyphen stay as they are; the others follow with each hyphen replaced by an
/// underscore. Order is kept within each group.
pub fn normalize_entries<V>(entries: Vec<(String, V)>) -> (r: Vec<(String, V)>)
    ensures
        entry_views(r@) == normalized_entries(entry_views(entries@)),
{
    let ghost all = entry_views(entries@);
    let mut rest = entries;
    let mut plain: Vec<(String, V)> = Vec::new();
    let mut renamed: Vec<(String, V)> = Vec::new();
    let ghost mut k: int = 0;
    while rest.len() > 0
        invariant
            0 <= k <= all.len(),
            entry_views(rest@) == all.skip(k),
            entry_views(plain@) == plain_entries(all.take(k)),
            entry_views(renamed@) == renamed_entries(all.take(k)),
        decreases rest.len(),
    {
        let ghost before = rest@;
        let e = rest.remove(0);
        proof {
            assert(entry_views(before).len() == before.len());
            assert(k < all.len());
            assert(all[k] == (e.0@, e.1)) by {
                assert(entry_views(before)[0] == all.skip(k)[0]);
            }
            assert forall|i: int| 0 <= i < rest@.len() implies entry_views(rest@)[i] == all.skip(
                k + 1,
            )[i] by {
                assert(entry_views(before)[i + 1] == all.skip(k)[i + 1]);
            }
            assert(entry_views(rest@) =~= all.skip(k + 1));
            assert(all.take(k + 1).drop_last() =~= all.take(k));
        }
        let ghost old_plain = plain@;
        let ghost old_renamed = renamed@;
        if key_has_hyphen(e.0.as_str()) {
            let key = normalize_key(e.0.as_str());
            renamed.push((key, e.1));
            assert(entry_views(renamed@) =~= entry_views(old_renamed).push((key@, e.1)));
        } else {
            plain.push(e);
            assert(entry_views(plain@) =~= entry_views(old_plain).push((e.0@, e.1)));
        }
        proof {
            k = k + 1;
        }
    }
    assert(all.take(k) =~= all);
    let ghost p = plain@;
    let ghost q = renamed@;
    plain.append(&mut renamed);
    assert(entry_views(plain@) =~= entry_views(p) + entry_views(q));
    plain
}

proof fn lemma_plain_entries_unhyphenated<V>(es: Seq<(Seq<char>, V)>)
    ensures
        forall|i: int|
            0 <= i < plain_entries(es).len() ==> !has_hyphen(#[trigger] plain_entries(es)[i].0),
    decreases es.len(),
{
    if es.len() > 0 {
        let q = plain_entries(es.drop_last());
        lemma_plain_entries_unhyphenated(es.drop_last());
        assert forall|i: int| 0 <= i < plain_entries(es).len() implies !has_hyphen(
            #[trigger] plain_entries(es)[i].0,
        ) by {
            if i < q.len() {
                assert(plain_entries(es)[i] == q[i]);
            }
        }
    }
}

proof fn lemma_renamed_entries_unhyphenated<V>(es: Seq<(Seq<char>, V)>)
    ensures
        forall|i: int|
            0 <= i < renamed_entries(es).len() ==> !has_hyphen(
                #[trigger] renamed_entries(es)[i].0,
            ),
    decreases es.len(),
{
    if es.len() > 0 {
        let q = renamed_entries(es.drop_last());
        lemma_renamed_entries_unhyphenated(es.drop_last());
        lemma_normalized_key_idempotent(es.last().0);
        assert forall|i: int| 0 <= i < renamed_entries(es).len() implies !has_hyphen(
            #[trigger] renamed_entries(es)[i].0,
        ) by {
            if i < q.len() {
                assert(renamed_entries(es)[i] == q[i]);
            }
        }
    }
}

proof fn lemma_unhyphenated_entries_unchanged<V>(es: Seq<(Seq<char>, V)>)
    requires
        forall|i: int| 0 <= i < es.len() ==> !has_hyphen(#[trigger] es[i].0),
    ensures
        plain_entries(es) == es,
        renamed_entries(es).len() == 0,
    decreases es.len(),
{
    if es.len() > 0 {
        let init = es.drop_last();
        assert forall|i: int| 0 <= i < init.len() implies !has_hyphen(#[trigger] init[i].0) by {
            assert(init[i] == es[i]);
        }
        lemma_unhyphenated_entries_unchanged(init);
        assert(!has_hyphen(es[es.len() - 1].0));
        assert(init.push(es.last()) =~= es);
    }
}

/// Rewriting a key leaves no hyphen in it, so rewriting it again changes
/// nothing; a key without a hyphen is left as it is.
pub proof fn lemma_normalized_key_idempotent(k: Seq<char>)
    ensures
        !has_hyphen(normalized_key(k)),
        normalized_key(normalized_key(k)) == normalized_key(k),
        !has_hyphen(k) ==> normalized_key(k) == k,
{
    assert(normalized_key(normalized_key(k)) =~= normalized_key(k));
    if !has_hyphen(k) {
        assert forall|i: int| 0 <= i < k.len() implies normalized_key(k)[i] == k[i] by {
            assert(k[i] != '-');
        }
        assert(normalized_key(k) =~= k);
    }
}

/// Key rewriting is idempotent: the entries of a document whose keys were
/// rewritten hold no hyphenated key, and rewriting them again leaves them as
/// they are. Decoding a document therefore sees the same entries whether or
/// not its keys were rewritten beforehand.
pub proof fn lemma_normalize_entries_idempotent<V>(es: Seq<(Seq<char>, V)>)
    ensures
        forall|i: int|
            0 <= i < normalized_entries(es).len() ==> !has_hyphen(
                #[trigger] normalized_entries(es)[i].0,
            ),
        normalized_entries(normalized_entries(es)) == normalized_entries(es),
{
    let n = normalized_entries(es);
    let p = plain_entries(es);
    lemma_plain_entries_unhyphenated(es);
    lemma_renamed_entries_unhyphenated(es);
    assert forall|i: int| 0 <= i < n.len() implies !has_hyphen(#[trigger] n[i].0) by {
        if i < p.len() {
            assert(n[i] == p[i]);
        } else {
            assert(n[i] == renamed_entries(es)[i - p.len()]);
        }
    }
    lemma_unhyphenated_entries_unchanged(n);
    assert(normalized_entries(n) =~= n);
}

#[verifier::external_type_specification]
#[verifier::external_body]
pub struct ExJson(Json);

pub open spec fn msg_root_not_object() -> Seq<char> {
    "JSON root element is not an object"@
}

/// What a JSON document holds when it is an object: its entries, by key.
pub uninterp spec fn object_view(j: Json) -> Option<Map<Seq<char>, Json>>;

/// The entries of the map that a JSON object holds, by key.
pub uninterp spec fn entries_of(m: BTreeMap<String, Json>) -> Map<Seq<char>, Json>;

/// The map that entries give when they are inserted in order: a later entry
/// replaces an earlier one with the same key.
pub open spec fn gathered<V>(es: Seq<(Seq<char>, V)>) -> Map<Seq<char>, V>
    decreases es.len(),
{
    if es.len() == 0 {
        Map::empty()
    } else {
        gathered(es.drop_last()).insert(es.last().0, es.last().1)
    }
}

/// Relies on rustc_serialize's `Json::Object`, which holds a `BTreeMap`: an
/// object's entries, whose keys are distinct. Any other document gives `None`.
#[verifier::external_body]
fn object_entries(doc: Json) -> (r: Option<Vec<(String, Json)>>)
    ensures
        r is Some <==> object_view(doc) is Some,
        r matches Some(es) ==> forall|i: int, j: int|
            0 <= i < j < es@.len() ==> es@[i].0@ != es@[j].0@,
        r matches Some(es) ==> object_view(doc) == Some(gathered(entry_views(es@))),
{
    match doc {
        Json::Object(m) => Some(m.into_iter().collect()),
        _ => None,
    }
}

pub open spec fn no_entries() -> Map<Seq<char>, Json> {
    Map::empty()
}

/// Relies on `BTreeMap::new`: an empty map.
#[verifier::external_body]
fn empty_object_map() -> (r: BTreeMap<String, Json>)
    ensures
        entries_of(r) == no_entries(),
{
    BTreeMap::new()
}

/// Relies on `BTreeMap::insert`: the key now holds the value, replacing any
/// value it held.
#[verifier::external_body]
fn object_insert(m: &mut BTreeMap<String, Json>, key: String, value: Json)
    ensures
        entries_of(*final(m)) == entries_of(*old(m)).insert(key@, value),
{
    m.insert(key, value);
}

/// Relies on rustc_serialize's `Json::Object`: the object that holds the map.
#[verifier::external_body]
fn object_of(m: BTreeMap<String, Json>) -> (r: Json)
    ensures
        object_view(r) == Some(entries_of(m)),
{
    Json::Object(m)
}

/// The object that holds the entries, inserted in order.
pub fn gather(entries: Vec<(String, Json)>) -> (r: Json)
    ensures
        object_view(r) == Some(gathered(entry_views(entries@))),
{
    let ghost all = entry_views(entries@);
    let mut rest = entries;
    let mut m = empty_object_map();
    let ghost mut k: int = 0;
    assert(all.take(0) =~= Seq::<(Seq<char>, Json)>::empty());
    while rest.len() > 0
        invariant
            0 <= k <= all.len(),
            entry_views(rest@) == all.skip(k),
            entries_of(m) == gathered(all.take(k)),
        decreases rest.len(),
    {
        let ghost before = rest@;
        let e = rest.remove(0);
        proof {
            assert(entry_views(before).len() == before.len());
            assert(k < all.len());
            assert(all[k] == (e.0@, e.1)) by {
                assert(entry_views(before)[0] == all.skip(k)[0]);
            }
            assert forall|i: int| 0 <= i < rest@.len() implies entry_views(rest@)[i] == all.skip(
                k + 1,
            )[i] by {
                assert(entry_views(before)[i + 1] == all.skip(k)[i + 1]);
            }
            assert(entry_views(rest@) =~= all.skip(k + 1));
            assert(all.take(k + 1).drop_last() =~= all.take(k));
        }
        object_insert(&mut m, e.0, e.1);
        proof {
            k = k + 1;
        }
    }
    assert(all.take(k) =~= all);
    object_of(m)
}

/// Rewrites the keys of a settings document before it is decoded: each
/// hyphen in a key of the root object becomes an underscore, and where a
/// rewritten key meets an existing one, the rewritten entry wins. A document
/// whose root is not an object is refused.
pub fn preprocess_config(doc: Json) -> (r: Result<Json, ConfigReadingError>)
    ensures
        r is Err <==> object_view(doc) is None,
        r is Err ==> (r matches Err(ConfigReadingError::ParseError(m)) && m@
            == msg_root_not_object()),
        r matches Ok(j) ==> exists|es: Seq<(Seq<char>, Json)>|
            (forall|a: int, b: int| 0 <= a < b < es.len() ==> es[a].0 != es[b].0) && object_view(
                doc,
            ) == Some(gathered(es)) && object_view(j) == Some(gathered(normalized_entries(es))),
{
    match object_entries(doc) {
        Some(entries) => {
            let ghost es = entry_views(entries@);
            assert(forall|a: int, b: int| 0 <= a < b < es.len() ==> es[a].0 != es[b].0) by {
                assert forall|a: int, b: int| 0 <= a < b < es.len() implies es[a].0 != es[b].0 by {
                    assert(es[a].0 == entries@[a].0@ && es[b].0 == entries@[b].0@);
                }
            }
            Ok(gather(normalize_entries(entries)))
        },
        None => {
            proof {
                reveal_strlit("JSON root element is not an object");
            }
            Err(ConfigReadingError::ParseError(String::from_str("JSON root element is not an object")))
        },
    }
}

impl ConfigReadingError {
    /// The text shown to the user for this error.
    pub fn message(&self) -> (r: String)
        ensures
            self matches ConfigReadingError::IoError(e) ==> to_string_from_display_ensures::<
                std::io::Error,
            >(e, r),
            self matches ConfigReadingError::ParseError(m) ==> r@ == m@,
            self matches ConfigReadingError::ValidationError(m) ==> r@ == m@,
    {
        match self {
            ConfigReadingError::IoError(e) => e.to_string(),
            ConfigReadingError::ParseError(m) => m.clone(),
            ConfigReadingError::ValidationError(m) => m.clone(),
        }
    }
}

/// With RPC disabled, a config whose download directory is absolute is
/// refused with the RPC-disabled message, whatever its other fields hold (a
/// relative download directory is reported first).
pub proof fn lemma_rpc_disabled_rejected(c: &Config)
    requires
        !c.rpc_enabled,
        c.download_dir@.len() > 0 && c.download_dir@[0] == '/',
    ensures
        config_failure(c) == Some(msg_rpc_disabled()),
{
}

/// When authentication is required and the earlier rules hold, a config
/// without a plain password is refused with the password message, and the
/// same config with a password is accepted.
pub proof fn lemma_authentication_needs_password(c: &Config)
    requires
        c.rpc_authentication_required,
        c.download_dir@.len() > 0 && c.download_dir@[0] == '/',
        c.rpc_enabled,
        trimmed(c.rpc_bind_address@).len() > 0,
    ensures
        c.rpc_plain_password is None ==> config_failure(c) == Some(msg_missing_password()),
        c.rpc_plain_password is Some ==> config_is_valid(c),
{
}

} // verus!

//! Connection settings from config files in the format of s3cmd.
use vstd::hash_map::StringHashMap;
use vstd::prelude::*;

use crate::text::{
    chars_of, cut, cut_at, first_of, lemma_first_of, lemma_first_of_is, same_but_case,
    same_ignoring_case, trim_space, trimmed,
};

verus! {

/// Connection settings for a store.
pub struct S3Config {
    pub access_key: String,
    pub secret_key: String,
    pub host_base: String,
    pub bucket_location: String,
    pub use_https: bool,
    pub virtual_hosted_style: bool,
}

/// Why a config file was rejected.
#[derive(Debug, Clone, Copy, PartialEq, Eq, Structural)]
pub enum ConfigError {
    MissingAccessKey,
    MissingSecretKey,
}

impl ConfigError {
    pub fn message(&self) -> (r: &'static str)
        ensures
            r@ == match *self {
                ConfigError::MissingAccessKey => "missing access_key"@,
                ConfigError::MissingSecretKey => "missing secret_key"@,
            },
    {
        match self {
            ConfigError::MissingAccessKey => "missing access_key",
            ConfigError::MissingSecretKey => "missing secret_key",
        }
    }
}

/// The key and the value that a line sets, if it sets any: no comment, no
/// section header, and an equals sign between the two.
pub open spec fn line_setting(line: Seq<char>) -> Option<(Seq<char>, Seq<char>)> {
    let line = trim_space(line);
    if line.len() == 0 || line[0] == '#' || line[0] == ';' || line[0] == '[' {
        None
    } else {
        match cut(line, '=') {
            Some((k, v)) => Some((trim_space(k), trim_space(v))),
            None => None,
        }
    }
}

/// The settings with what a line sets.
pub open spec fn with_line(
    settings: Map<Seq<char>, Seq<char>>,
    line: Seq<char>,
) -> Map<Seq<char>, Seq<char>> {
    match line_setting(line) {
        Some((k, v)) => settings.insert(k, v),
        None => settings,
    }
}

/// The settings after all lines of a text: a later line overrides an earlier
/// one with the same key.
pub open spec fn settings_from(
    settings: Map<Seq<char>, Seq<char>>,
    content: Seq<char>,
) -> Map<Seq<char>, Seq<char>>
    decreases content.len(),
{
    let end = first_of(content, '\n') as int;
    if end < content.len() {
        settings_from(with_line(settings, content.take(end)), content.skip(end + 1))
    } else {
        with_line(settings, content)
    }
}

/// The settings in a config file.
pub open spec fn settings_of(content: Seq<char>) -> Map<Seq<char>, Seq<char>> {
    settings_from(Map::empty(), content)
}

/// A line at the end of a config file overrides what the lines before it say
/// of the same key, and leaves all other settings as they are.
pub proof fn last_line_overrides(content: Seq<char>, line: Seq<char>)
    requires
        !line.contains('\n'),
    ensures
        settings_of(content + seq!['\n'] + line) == with_line(settings_of(content), line),
{
    lemma_line_at_the_end(Map::empty(), content, line);
}

proof fn lemma_line_at_the_end(
    settings: Map<Seq<char>, Seq<char>>,
    content: Seq<char>,
    line: Seq<char>,
)
    requires
        !line.contains('\n'),
    ensures
        settings_from(settings, content + seq!['\n'] + line) == with_line(
            settings_from(settings, content),
            line,
        ),
    decreases content.len(),
{
    let all = content + seq!['\n'] + line;
    let end = first_of(content, '\n') as int;
    lemma_first_of(content, '\n');
    if end < content.len() {
        assert forall|j: int| 0 <= j < end implies all[j] != '\n' by {
            assert(all[j] == content[j]);
        }
        assert(all[end] == content[end]);
        lemma_first_of_is(all, '\n', end);
        assert(all.take(end) =~= content.take(end));
        assert(all.skip(end + 1) =~= content.skip(end + 1) + seq!['\n'] + line);
        lemma_line_at_the_end(
            with_line(settings, content.take(end)),
            content.skip(end + 1),
            line,
        );
    } else {
        assert forall|j: int| 0 <= j < content.len() implies all[j] != '\n' by {
            assert(all[j] == content[j]);
        }
        lemma_first_of_is(all, '\n', content.len() as int);
        assert(all.take(content.len() as int) =~= content);
        assert(all.skip((content.len() + 1) as int) =~= line);
        assert forall|j: int| 0 <= j < line.len() implies line[j] != '\n' by {
            if line[j] == '\n' {
                assert(line.contains('\n'));
            }
        }
        lemma_first_of_is(line, '\n', line.len() as int);
        let first = with_line(settings, content);
        assert(settings_from(settings, content) == first);
        assert(settings_from(first, line) == with_line(first, line));
        assert(settings_from(settings, all) == settings_from(first, line));
    }
}

/// The value of a setting, or what stands for it if it is not set.
pub open spec fn setting_or(
    settings: Map<Seq<char>, Seq<char>>,
    key: Seq<char>,
    default: Seq<char>,
) -> Seq<char> {
    if settings.contains_key(key) {
        settings[key]
    } else {
        default
    }
}

/// Does the config say what the settings say?
pub open spec fn says(config: S3Config, settings: Map<Seq<char>, Seq<char>>) -> bool {
    let host_bucket = setting_or(settings, "host_bucket"@, ""@);
    &&& settings.contains_key("access_key"@)
    &&& config.access_key@ == settings["access_key"@]
    &&& settings.contains_key("secret_key"@)
    &&& config.secret_key@ == settings["secret_key"@]
    &&& config.host_base@ == setting_or(settings, "host_base"@, "s3.amazonaws.com"@)
    &&& config.bucket_location@ == setting_or(settings, "bucket_location"@, "us-east-1"@)
    &&& config.use_https == (settings.contains_key("use_https"@) ==> same_but_case(
        settings["use_https"@],
        "true"@,
    ))
    &&& config.virtual_hosted_style == (!same_but_case(host_bucket, "false"@) && host_bucket.len()
        > 0)
}

/// The texts that the map holds.
spec fn texts_in(m: Map<Seq<char>, String>) -> Map<Seq<char>, Seq<char>> {
    m.map_values(|s: String| s@)
}

fn read_line(settings: &mut StringHashMap<String>, line: &str)
    ensures
        texts_in(final(settings)@) == with_line(texts_in(old(settings)@), line@),
{
    let line = trimmed(line);
    let cs = chars_of(line);
    if cs.len() == 0 || cs[0] == '#' || cs[0] == ';' || cs[0] == '[' {
        return;
    }
    match cut_at(line, '=') {
        Some((k, v)) => {
            let value: String = trimmed(v).to_owned();
            settings.insert(trimmed(k).to_owned(), value);
            proof {
                assert(texts_in(settings@) =~= texts_in(old(settings)@).insert(
                    trim_space(k@),
                    value@,
                ));
            }
        },
        None => {},
    }
}

fn read_settings(content: &str) -> (r: StringHashMap<String>)
    ensures
        texts_in(r@) == settings_of(content@),
{
    let mut settings: StringHashMap<String> = StringHashMap::new();
    let mut rest: &str = content;
    proof {
        assert(texts_in(settings@) =~= Map::empty());
    }
    loop
        invariant
            settings_of(content@) == settings_from(texts_in(settings@), rest@),
        decreases rest@.len(),
    {
        match cut_at(rest, '\n') {
            Some((line, more)) => {
                proof {
                    lemma_first_of(rest@, '\n');
                }
                read_line(&mut settings, line);
                rest = more;
            },
            None => {
                proof {
                    lemma_first_of(rest@, '\n');
                }
                read_line(&mut settings, rest);
                return settings;
            },
        }
    }
}

fn value_or(settings: &StringHashMap<String>, key: &str, default: &str) -> (r: String)
    ensures
        r@ == setting_or(texts_in(settings@), key@, default@),
{
    match settings.get(key) {
        Some(v) => v.clone(),
        None => default.to_owned(),
    }
}

impl S3Config {
    /// Reads the text of a config file.
    pub fn parse(content: &str) -> (r: Result<S3Config, ConfigError>)
        ensures
            match r {
                Ok(config) => says(config, settings_of(content@)),
                Err(ConfigError::MissingAccessKey) => !settings_of(content@).contains_key(
                    "access_key"@,
                ),
                Err(ConfigError::MissingSecretKey) => settings_of(content@).contains_key(
                    "access_key"@,
                ) && !settings_of(content@).contains_key("secret_key"@),
            },
    {
        let settings = read_settings(content);
        let host_bucket = value_or(&settings, "host_bucket", "");
        let virtual_hosted_style = !same_ignoring_case(host_bucket.as_str(), "false")
            && !host_bucket.as_str().is_empty();
        let access_key = match settings.get("access_key") {
            Some(v) => v.clone(),
            None => return Err(ConfigError::MissingAccessKey),
        };
        let secret_key = match settings.get("secret_key") {
            Some(v) => v.clone(),
            None => return Err(ConfigError::MissingSecretKey),
        };
        let use_https = match settings.get("use_https") {
            Some(v) => same_ignoring_case(v.as_str(), "true"),
            None => true,
        };
        Ok(
            S3Config {
                access_key,
                secret_key,
                host_base: value_or(&settings, "host_base", "s3.amazonaws.com"),
                bucket_location: value_or(&settings, "bucket_location", "us-east-1"),
                use_https,
                virtual_hosted_style,
            },
        )
    }

    /// The URL at which the store is reached.
    pub fn endpoint(&self) -> (r: String)
        ensures
            r@ == (if self.use_https {
                "https"@
            } else {
                "http"@
            }) + "://"@ + self.host_base@,
    {
        let mut out: String = if self.use_https {
            "https".to_owned()
        } else {
            "http".to_owned()
        };
        out.append("://");
        out.append(self.host_base.as_str());
        out
    }
}

// ---------------------------------------------------------------------------
// What the lines of a config file mean
// ---------------------------------------------------------------------------

/// A line with a key, an equals sign and a value sets the key to the value,
/// with any blanks around the two. The value may have equals signs in it.
pub proof fn line_sets_its_key(
    a: Seq<char>,
    key: Seq<char>,
    b: Seq<char>,
    c: Seq<char>,
    value: Seq<char>,
    d: Seq<char>,
)
    requires
        forall|i: int| 0 <= i < a.len() ==> crate::text::is_space(#[trigger] a[i]),
        forall|i: int| 0 <= i < b.len() ==> crate::text::is_space(#[trigger] b[i]),
        forall|i: int| 0 <= i < c.len() ==> crate::text::is_space(#[trigger] c[i]),
        forall|i: int| 0 <= i < d.len() ==> crate::text::is_space(#[trigger] d[i]),
        key.len() > 0,
        !crate::text::is_space(key[0]),
        !crate::text::is_space(key.last()),
        !key.contains('='),
        key[0] != '#' && key[0] != ';' && key[0] != '[',
        value.len() > 0 ==> !crate::text::is_space(value[0]) && !crate::text::is_space(
            value.last(),
        ),
    ensures
        line_setting(a + (key + b + seq!['='] + c + value) + d) == Some((key, value)),
{
    let none = Seq::<char>::empty();
    let body = key + b + seq!['='] + c + value;
    let line = a + body + d;
    // What is left of the line without the blanks around it.
    let tail = if value.len() > 0 {
        none
    } else {
        c
    };
    let core = if value.len() > 0 {
        body
    } else {
        key + b + seq!['=']
    };
    assert(core[0] == key[0]);
    assert(core.last() == if value.len() > 0 {
        value.last()
    } else {
        '='
    });
    assert(line =~= a + core + (tail + d));
    let back = tail + d;
    assert forall|i: int| 0 <= i < back.len() implies crate::text::is_space(
        #[trigger] back[i],
    ) by {
        if i < tail.len() {
            assert(back[i] == c[i]);
        } else {
            assert(back[i] == d[i - tail.len()]);
        }
    }
    crate::text::trimming_takes_white_space_alone(a, core, back);
    let front = key + b;
    let rest = if value.len() > 0 {
        c + value
    } else {
        none
    };
    assert(core =~= front.push('=') + rest);
    assert(!front.contains('=')) by {
        if front.contains('=') {
            let i = choose|i: int| 0 <= i < front.len() && front[i] == '=';
            if i < key.len() {
                assert(key.contains(key[i]));
            } else {
                assert(crate::text::is_space(b[i - key.len()]));
            }
        }
    }
    crate::text::joined_parts_are_cut_apart(front, '=', rest);
    crate::text::trimming_takes_white_space_alone(none, key, b);
    assert(none + key + b =~= front);
    if value.len() > 0 {
        crate::text::trimming_takes_white_space_alone(c, value, none);
        assert(c + value + none =~= rest);
    } else {
        crate::text::trimming_takes_white_space_alone(none, none, none);
        assert(none + none + none =~= rest);
        assert(value =~= none);
    }
}

/// Empty lines, comments and section headers set nothing, nor does a line
/// without an equals sign.
pub proof fn other_lines_set_nothing(a: Seq<char>, line: Seq<char>)
    requires
        forall|i: int| 0 <= i < a.len() ==> crate::text::is_space(#[trigger] a[i]),
    ensures
        line_setting(a) is None,
        line.len() > 0 && (line[0] == '#' || line[0] == ';' || line[0] == '[') ==> line_setting(
            a + line,
        ) is None,
        !line.contains('=') ==> line_setting(line) is None,
{
    let none = Seq::<char>::empty();
    crate::text::trimming_takes_white_space_alone(a, none, none);
    assert(a + none + none =~= a);
    if line.len() > 0 && (line[0] == '#' || line[0] == ';' || line[0] == '[') {
        lemma_trimmed_end(line);
        lemma_blanks_in_front(a, line);
        let t = crate::text::trim_space_end(line);
        assert(t.len() > 0) by {
            if t.len() == 0 {
                assert(crate::text::is_space(line[0]));
            }
        }
        assert(t[0] == line[0]);
    }
    if !line.contains('=') {
        let t = trim_space(line);
        lemma_trimmed_is_part(line);
        lemma_first_of(t, '=');
        let i = first_of(t, '=') as int;
        if i < t.len() {
            let k = choose|k: int|
                0 <= k && k + t.len() <= line.len() && #[trigger] line.subrange(k, k + t.len()) == t;
            assert(line[k + i] == line.subrange(k, k + t.len())[i]);
            assert(line.contains(line[k + i]));
        }
    }
}

proof fn lemma_blanks_in_front(a: Seq<char>, line: Seq<char>)
    requires
        forall|i: int| 0 <= i < a.len() ==> crate::text::is_space(#[trigger] a[i]),
        line.len() > 0,
        !crate::text::is_space(line[0]),
    ensures
        trim_space(a + line) == crate::text::trim_space_end(line),
    decreases a.len(),
{
    if a.len() > 0 {
        assert((a + line)[0] == a[0]);
        assert((a + line).skip(1) =~= a.skip(1) + line);
        lemma_blanks_in_front(a.skip(1), line);
    } else {
        assert(a + line =~= line);
    }
}

proof fn lemma_trimmed_end(s: Seq<char>)
    ensures
        crate::text::trim_space_end(s).len() <= s.len(),
        crate::text::trim_space_end(s) == s.take(crate::text::trim_space_end(s).len() as int),
        forall|i: int|
            crate::text::trim_space_end(s).len() <= i < s.len() ==> crate::text::is_space(
                #[trigger] s[i],
            ),
    decreases s.len(),
{
    let t = crate::text::trim_space_end(s);
    if s.len() > 0 && crate::text::is_space(s.last()) {
        lemma_trimmed_end(s.drop_last());
        assert(s.take(t.len() as int) =~= s.drop_last().take(t.len() as int));
        assert forall|i: int| t.len() <= i < s.len() implies crate::text::is_space(
            #[trigger] s[i],
        ) by {
            if i < s.len() - 1 {
                assert(s.drop_last()[i] == s[i]);
            }
        }
    } else {
        assert(s.take(s.len() as int) =~= s);
    }
}

proof fn lemma_trimmed_is_part(s: Seq<char>)
    ensures
        exists|k: int|
            0 <= k && k + trim_space(s).len() <= s.len() && #[trigger] s.subrange(
                k,
                k + trim_space(s).len(),
            ) == trim_space(s),
    decreases s.len(),
{
    let t = trim_space(s);
    if s.len() > 0 && crate::text::is_space(s[0]) {
        lemma_trimmed_is_part(s.skip(1));
        let k = choose|k: int|
            0 <= k && k + t.len() <= s.skip(1).len() && #[trigger] s.skip(1).subrange(
                k,
                k + t.len(),
            ) == t;
        assert(s.subrange(k + 1, k + 1 + t.len()) =~= s.skip(1).subrange(k, k + t.len()));
    } else {
        lemma_trimmed_end(s);
        assert(s.subrange(0, 0 + t.len() as int) =~= t);
    }
}

/// A key has the value that the last line with that key sets: a line at the
/// end of a file counts, and leaves all other keys as they are.
pub proof fn last_line_with_a_key_counts(content: Seq<char>, key: Seq<char>, value: Seq<char>)
    requires
        key.len() > 0,
        !crate::text::is_space(key[0]),
        !crate::text::is_space(key.last()),
        !key.contains('='),
        !key.contains('\n'),
        !value.contains('\n'),
        key[0] != '#' && key[0] != ';' && key[0] != '[',
        value.len() > 0 ==> !crate::text::is_space(value[0]) && !crate::text::is_space(
            value.last(),
        ),
    ensures
        ({
            let before = settings_of(content);
            let after = settings_of(content + seq!['\n'] + (key + " = "@ + value));
            &&& after.contains_key(key)
            &&& after[key] == value
            &&& forall|other: Seq<char>|
                other != key ==> (#[trigger] after.contains_key(other) <==> before.contains_key(
                    other,
                )) && after[other] == before[other]
        }),
{
    reveal_strlit(" = ");
    let none = Seq::<char>::empty();
    let line = key + " = "@ + value;
    assert(line =~= none + (key + seq![' '] + seq!['='] + seq![' '] + value) + none);
    line_sets_its_key(none, key, seq![' '], seq![' '], value, none);
    assert(!line.contains('\n')) by {
        if line.contains('\n') {
            let i = choose|i: int| 0 <= i < line.len() && line[i] == '\n';
            if i < key.len() {
                assert(key.contains(key[i]));
            } else if i >= key.len() + 3 {
                assert(value.contains(value[i - key.len() - 3]));
            }
        }
    }
    last_line_overrides(content, line);
}

/// A config has the keys of the file, and where the file is silent what S3 has
/// by default: the host of Amazon, its first region, HTTPS, and names of
/// buckets in the path.
pub proof fn config_is_that_of_the_file(config: S3Config, settings: Map<Seq<char>, Seq<char>>)
    requires
        says(config, settings),
    ensures
        settings.contains_key("access_key"@) && config.access_key@ == settings["access_key"@],
        settings.contains_key("secret_key"@) && config.secret_key@ == settings["secret_key"@],
        settings.contains_key("host_base"@) ==> config.host_base@ == settings["host_base"@],
        !settings.contains_key("host_base"@) ==> config.host_base@ == "s3.amazonaws.com"@,
        settings.contains_key("bucket_location"@) ==> config.bucket_location@
            == settings["bucket_location"@],
        !settings.contains_key("bucket_location"@) ==> config.bucket_location@ == "us-east-1"@,
        !settings.contains_key("use_https"@) ==> config.use_https,
        settings.contains_key("use_https"@) ==> (config.use_https <==> same_but_case(
            settings["use_https"@],
            "true"@,
        )),
        !settings.contains_key("host_bucket"@) ==> !config.virtual_hosted_style,
        settings.contains_key("host_bucket"@) ==> (config.virtual_hosted_style
            <==> settings["host_bucket"@].len() > 0 && !same_but_case(
            settings["host_bucket"@],
            "false"@,
        )),
{
    reveal_strlit("");
}

} // verus!

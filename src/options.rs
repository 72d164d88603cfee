//! The option string: `key=value` pairs separated by commas, and the resize
//! configuration read from its `size` and `filter` keys.
use vstd::prelude::*;
use crate::number::{parse_percentage, parse_u32, percentage_of, u32_of, Percentage};
use crate::text::{same_text, split_on, split_text, views_of};

verus! {

/// The resampling filter used when an image is resized.
#[derive(Clone, Copy, Debug, PartialEq, Eq, Structural)]
pub enum FilterKind {
    Nearest,
    Linear,
    Cubic,
    Gaussian,
    Lanczos3,
}

/// How the new size of an image is chosen.
#[derive(Clone, Copy, Debug, PartialEq, Eq, Structural)]
pub enum ResizeMode {
    /// Every image becomes exactly `width` by `height`.
    AbsoluteSize { width: u32, height: u32 },
    /// Every image is scaled by `percent / 100` in both directions.
    ScaleFactor { percent: Percentage },
}

/// A validated resize configuration.
#[derive(Clone, Copy, Debug, PartialEq, Eq, Structural)]
pub struct ResizeConfig {
    pub mode: ResizeMode,
    pub filter: FilterKind,
}

/// Why an option string was refused.
#[derive(Debug, PartialEq, Eq)]
pub enum ConfigError {
    /// An item that is not two non-empty parts around one `=`.
    MalformedOption { option: String },
    /// The `size` key is absent.
    MissingSize,
    /// The `size` value is neither `<w>x<h>` nor `<n>%`.
    InvalidSize { value: String },
}

/// What a `ConfigError` holds, over character sequences.
pub enum ConfigFault {
    MalformedOption(Seq<char>),
    MissingSize,
    InvalidSize(Seq<char>),
}

impl View for ConfigError {
    type V = ConfigFault;

    open spec fn view(&self) -> ConfigFault {
        match self {
            ConfigError::MalformedOption { option } => ConfigFault::MalformedOption(option@),
            ConfigError::MissingSize => ConfigFault::MissingSize,
            ConfigError::InvalidSize { value } => ConfigFault::InvalidSize(value@),
        }
    }
}

/// The filter that a `filter` value names; anything unknown is cubic.
pub open spec fn filter_of(name: Seq<char>) -> FilterKind {
    if name == "nearest"@ {
        FilterKind::Nearest
    } else if name == "linear"@ {
        FilterKind::Linear
    } else if name == "gaussian"@ {
        FilterKind::Gaussian
    } else if name == "lanczos3"@ {
        FilterKind::Lanczos3
    } else {
        FilterKind::Cubic
    }
}

/// The resize mode that a `size` value denotes: two integers around one `x`,
/// or else a percentage (a finite, non-negative floating-point literal, see
/// `percentage_of`) followed by `%`.
pub open spec fn size_mode_of(v: Seq<char>) -> Option<ResizeMode> {
    let parts = split_on(v, 'x');
    if parts.len() == 2 {
        match (u32_of(parts[0]), u32_of(parts[1])) {
            (Some(width), Some(height)) => Some(ResizeMode::AbsoluteSize { width, height }),
            _ => None,
        }
    } else if v.len() > 0 && v.last() == '%' {
        match percentage_of(v.drop_last()) {
            Some(percent) => Some(ResizeMode::ScaleFactor { percent }),
            None => None,
        }
    } else {
        None
    }
}

/// The key and value of one option item, if it is two non-empty parts around one `=`.
pub open spec fn option_pair(item: Seq<char>) -> Option<(Seq<char>, Seq<char>)> {
    let parts = split_on(item, '=');
    if parts.len() == 2 && parts[0].len() > 0 && parts[1].len() > 0 {
        Some((parts[0], parts[1]))
    } else {
        None
    }
}

/// The first item that is not a key/value pair.
pub open spec fn first_malformed(items: Seq<Seq<char>>) -> Option<Seq<char>>
    decreases items.len(),
{
    if items.len() == 0 {
        None
    } else if option_pair(items[0]) is None {
        Some(items[0])
    } else {
        first_malformed(items.drop_first())
    }
}

/// The map of the pairs in `items`, a later key replacing an earlier one.
pub open spec fn pairs_map(items: Seq<Seq<char>>) -> Map<Seq<char>, Seq<char>>
    decreases items.len(),
{
    if items.len() == 0 {
        Map::empty()
    } else {
        match option_pair(items.last()) {
            Some(p) => pairs_map(items.drop_last()).insert(p.0, p.1),
            None => pairs_map(items.drop_last()),
        }
    }
}

/// The options that an option string holds, or the first malformed item.
pub open spec fn raw_options_of(raw: Seq<char>) -> Result<Map<Seq<char>, Seq<char>>, ConfigFault> {
    let items = split_on(raw, ',');
    match first_malformed(items) {
        Some(bad) => Err(ConfigFault::MalformedOption(bad)),
        None => Ok(pairs_map(items)),
    }
}

/// The configuration that a map of options gives.
pub open spec fn config_from(m: Map<Seq<char>, Seq<char>>) -> Result<ResizeConfig, ConfigFault> {
    let filter = if m.contains_key("filter"@) {
        filter_of(m["filter"@])
    } else {
        FilterKind::Cubic
    };
    if !m.contains_key("size"@) {
        Err(ConfigFault::MissingSize)
    } else {
        match size_mode_of(m["size"@]) {
            Some(mode) => Ok(ResizeConfig { mode, filter }),
            None => Err(ConfigFault::InvalidSize(m["size"@])),
        }
    }
}

/// The configuration that an option string gives.
pub open spec fn config_of(raw: Seq<char>) -> Result<ResizeConfig, ConfigFault> {
    match raw_options_of(raw) {
        Ok(m) => config_from(m),
        Err(f) => Err(f),
    }
}

/// The map of a list of key/value entries, a later key replacing an earlier one.
pub open spec fn entries_map(s: Seq<(String, String)>) -> Map<Seq<char>, Seq<char>>
    decreases s.len(),
{
    if s.len() == 0 {
        Map::empty()
    } else {
        entries_map(s.drop_last()).insert(s.last().0@, s.last().1@)
    }
}

/// Options as a map from name to value.
pub struct RawOptions {
    entries: Vec<(String, String)>,
}

impl View for RawOptions {
    type V = Map<Seq<char>, Seq<char>>;

    closed spec fn view(&self) -> Map<Seq<char>, Seq<char>> {
        entries_map(self.entries@)
    }
}

impl RawOptions {
    /// The value stored under `key`, if any.
    pub fn get(&self, key: &str) -> (r: Option<String>)
        ensures
            r is Some <==> self@.contains_key(key@),
            r matches Some(v) ==> v@ == self@[key@],
    {
        let s = self.entries.len();
        let mut j: usize = s;
        assert(self.entries@.take(s as int) =~= self.entries@);
        while j > 0
            invariant
                j <= self.entries@.len(),
                entries_map(self.entries@.take(j as int)).contains_key(key@)
                    == self@.contains_key(key@),
                self@.contains_key(key@) ==> entries_map(self.entries@.take(j as int))[key@]
                    == self@[key@],
            decreases j,
        {
            assert(self.entries@.take(j as int).drop_last() =~= self.entries@.take(j - 1));
            assert(self.entries@.take(j as int).last() == self.entries@[j - 1]);
            if same_text(self.entries[j - 1].0.as_str(), key) {
                return Some(self.entries[j - 1].1.clone());
            }
            j = j - 1;
        }
        None
    }
}

/// Splits an option string into its key/value pairs.
pub fn parse_raw_options(raw: &str) -> (r: Result<RawOptions, ConfigError>)
    ensures
        match r {
            Ok(o) => raw_options_of(raw@) == Ok::<_, ConfigFault>(o@),
            Err(e) => raw_options_of(raw@) == Err::<Map<Seq<char>, Seq<char>>, _>(e@),
        },
{
    let items = split_text(raw, ',');
    let ghost items_v = split_on(raw@, ',');
    let mut entries: Vec<(String, String)> = Vec::new();
    let mut i: usize = 0;
    assert(items_v.skip(0) =~= items_v);
    assert(items_v.take(0) =~= Seq::<Seq<char>>::empty());
    while i < items.len()
        invariant
            views_of(items@) == items_v,
            items_v == split_on(raw@, ','),
            i <= items@.len(),
            first_malformed(items_v.skip(i as int)) == first_malformed(items_v),
            entries_map(entries@) == pairs_map(items_v.take(i as int)),
        decreases items.len() - i,
    {
        assert(views_of(items@)[i as int] == items@[i as int]@);
        assert(items_v.skip(i as int)[0] == items_v[i as int]);
        let parts = split_text(items[i].as_str(), '=');
        proof {
            crate::text::lemma_split_nonempty(items_v[i as int], '=');
        }
        if parts.len() != 2 || parts[0].as_str().unicode_len() == 0
            || parts[1].as_str().unicode_len() == 0 {
            assert(views_of(parts@)[0] == parts@[0]@);
            assert(parts.len() == 2 ==> views_of(parts@)[1] == parts@[1]@);
            assert(option_pair(items_v[i as int]) is None);
            assert(items_v.skip(i as int).len() > 0);
            assert(first_malformed(items_v.skip(i as int)) == Some(items_v[i as int]));
            return Err(ConfigError::MalformedOption { option: items[i].clone() });
        }
        assert(views_of(parts@)[0] == parts@[0]@);
        assert(views_of(parts@)[1] == parts@[1]@);
        let key = parts[0].clone();
        let value = parts[1].clone();
        let ghost before = entries@;
        entries.push((key, value));
        assert(entries@.drop_last() =~= before);
        assert(items_v.take(i + 1).drop_last() =~= items_v.take(i as int));
        assert(items_v.take(i + 1).last() == items_v[i as int]);
        assert(items_v.skip(i as int).drop_first() =~= items_v.skip(i + 1));
        i = i + 1;
    }
    assert(items_v.take(i as int) =~= items_v);
    assert(items_v.skip(i as int) =~= Seq::<Seq<char>>::empty());
    Ok(RawOptions { entries })
}

/// The filter that a `filter` value names: `nearest`, `linear`, `gaussian`
/// and `lanczos3` name their filters; `cubic`, `default` and anything else give cubic.
pub fn filter_from_name(name: &str) -> (r: FilterKind)
    ensures
        r == filter_of(name@),
{
    if same_text(name, "nearest") {
        FilterKind::Nearest
    } else if same_text(name, "linear") {
        FilterKind::Linear
    } else if same_text(name, "gaussian") {
        FilterKind::Gaussian
    } else if same_text(name, "lanczos3") {
        FilterKind::Lanczos3
    } else {
        FilterKind::Cubic
    }
}

/// Reads a `size` value: `<width>x<height>` with two unsigned 32-bit integers,
/// or `<n>%` with `n` a finite, non-negative floating-point literal such as
/// `50`, `12.5`, `1e2` or `-0`; anything else is `InvalidSize`.
pub fn parse_size(value: &str) -> (r: Result<ResizeMode, ConfigError>)
    ensures
        r is Ok <==> size_mode_of(value@) is Some,
        r matches Ok(m) ==> size_mode_of(value@) == Some(m),
        r matches Err(e) ==> e@ == ConfigFault::InvalidSize(value@),
{
    let parts = split_text(value, 'x');
    if parts.len() == 2 {
        assert(views_of(parts@)[0] == parts@[0]@);
        assert(views_of(parts@)[1] == parts@[1]@);
        let width = parse_u32(parts[0].as_str());
        let height = parse_u32(parts[1].as_str());
        match (width, height) {
            (Some(width), Some(height)) => Ok(ResizeMode::AbsoluteSize { width, height }),
            _ => Err(ConfigError::InvalidSize { value: String::from_str(value) }),
        }
    } else {
        let n = value.unicode_len();
        if n > 0 && value.get_char(n - 1) == '%' {
            let number = value.substring_char(0, n - 1);
            assert(number@ =~= value@.drop_last());
            match parse_percentage(number) {
                Some(percent) => Ok(ResizeMode::ScaleFactor { percent }),
                None => Err(ConfigError::InvalidSize { value: String::from_str(value) }),
            }
        } else {
            Err(ConfigError::InvalidSize { value: String::from_str(value) })
        }
    }
}

/// Reads the configuration out of a map of options: `size` is required,
/// `filter` is optional and defaults to cubic.
pub fn config_from_options(options: &RawOptions) -> (r: Result<ResizeConfig, ConfigError>)
    ensures
        match r {
            Ok(c) => config_from(options@) == Ok::<_, ConfigFault>(c),
            Err(e) => config_from(options@) == Err::<ResizeConfig, _>(e@),
        },
{
    let filter = match options.get("filter") {
        Some(name) => filter_from_name(name.as_str()),
        None => FilterKind::Cubic,
    };
    match options.get("size") {
        None => Err(ConfigError::MissingSize),
        Some(value) => match parse_size(value.as_str()) {
            Ok(mode) => Ok(ResizeConfig { mode, filter }),
            Err(e) => Err(e),
        },
    }
}

/// Parses an option string such as `size=200x100,filter=nearest` into a
/// resize configuration.
pub fn parse_options(raw: &str) -> (r: Result<ResizeConfig, ConfigError>)
    ensures
        match r {
            Ok(c) => config_of(raw@) == Ok::<_, ConfigFault>(c),
            Err(e) => config_of(raw@) == Err::<ResizeConfig, _>(e@),
        },
{
    match parse_raw_options(raw) {
        Ok(options) => config_from_options(&options),
        Err(e) => Err(e),
    }
}

} // verus!

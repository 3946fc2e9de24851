//! The configuration document model: an ordered mapping from string keys to
//! values, where a value is a string, a list of strings, an endpoint entry
//! (a table of named fields), or some other shape the tool does not use.

use vstd::prelude::*;

verus! {

/// A value attached to a field of an endpoint entry: a single string
/// contribution, a list of endpoint names, or some other document shape.
pub enum FieldValue {
    Str(String),
    List(Vec<String>),
    Other,
}

/// Ghost form of a field value.
pub enum SpecFieldValue {
    Str(Seq<char>),
    List(Seq<Seq<char>>),
    Other,
}

impl View for FieldValue {
    type V = SpecFieldValue;

    open spec fn view(&self) -> SpecFieldValue {
        match self {
            FieldValue::Str(s) => SpecFieldValue::Str(s@),
            FieldValue::List(l) => SpecFieldValue::List(l.deep_view()),
            FieldValue::Other => SpecFieldValue::Other,
        }
    }
}

/// A root-level value: a global string setting, an endpoint entry, or some
/// other document shape.
pub enum RootValue {
    Str(String),
    Entry(Vec<(String, FieldValue)>),
    Other,
}

/// Ghost form of a root-level value.
pub enum SpecRootValue {
    Str(Seq<char>),
    Entry(Seq<(Seq<char>, SpecFieldValue)>),
    Other,
}

impl View for RootValue {
    type V = SpecRootValue;

    open spec fn view(&self) -> SpecRootValue {
        match self {
            RootValue::Str(s) => SpecRootValue::Str(s@),
            RootValue::Entry(fields) => SpecRootValue::Entry(
                fields@.map_values(|p: (String, FieldValue)| (p.0@, p.1@)),
            ),
            RootValue::Other => SpecRootValue::Other,
        }
    }
}

/// The configuration document: ordered key/value pairs at the root.
pub struct Config {
    pub items: Vec<(String, RootValue)>,
}

impl View for Config {
    type V = Seq<(Seq<char>, SpecRootValue)>;

    open spec fn view(&self) -> Seq<(Seq<char>, SpecRootValue)> {
        self.items@.map_values(|p: (String, RootValue)| (p.0@, p.1@))
    }
}

/// The first root value bound to `key`, scanning the pairs left to right.
pub open spec fn lookup(
    items: Seq<(Seq<char>, SpecRootValue)>,
    key: Seq<char>,
) -> Option<SpecRootValue>
    decreases items.len(),
{
    if items.len() == 0 {
        None
    } else if items[0].0 == key {
        Some(items[0].1)
    } else {
        lookup(items.subrange(1, items.len() as int), key)
    }
}

/// The first field value bound to `key` in an entry, scanning left to right.
pub open spec fn field_lookup(
    fields: Seq<(Seq<char>, SpecFieldValue)>,
    key: Seq<char>,
) -> Option<SpecFieldValue>
    decreases fields.len(),
{
    if fields.len() == 0 {
        None
    } else if fields[0].0 == key {
        Some(fields[0].1)
    } else {
        field_lookup(fields.subrange(1, fields.len() as int), key)
    }
}

impl Config {
    /// Look up a root key; the first binding wins.
    pub fn get<'a>(&'a self, key: &String) -> (r: Option<&'a RootValue>)
        ensures
            match r {
                Some(v) => lookup(self@, key@) == Some(v@),
                None => lookup(self@, key@) is None,
            },
    {
        let n = self.items.len();
        assert(self@.subrange(0, n as int) =~= self@);
        let mut i: usize = 0;
        while i < n
            invariant
                n == self.items.len(),
                i <= n,
                lookup(self@, key@) == lookup(self@.subrange(i as int, n as int), key@),
            decreases n - i,
        {
            assert(self@.subrange(i as int, n as int)[0] == self@[i as int]);
            if self.items[i].0 == *key {
                return Some(&self.items[i].1);
            }
            assert(self@.subrange(i as int, n as int).subrange(
                1,
                self@.subrange(i as int, n as int).len() as int,
            ) =~= self@.subrange(i + 1, n as int));
            i = i + 1;
        }
        assert(self@.subrange(n as int, n as int) =~= Seq::<(Seq<char>, SpecRootValue)>::empty());
        None
    }
}

/// Look up a field key in an entry's fields; the first binding wins.
pub fn entry_get<'a>(fields: &'a Vec<(String, FieldValue)>, key: &String) -> (r: Option<
    &'a FieldValue,
>)
    ensures
        ({
            let fs = fields@.map_values(|p: (String, FieldValue)| (p.0@, p.1@));
            match r {
                Some(v) => field_lookup(fs, key@) == Some(v@),
                None => field_lookup(fs, key@) is None,
            }
        }),
{
    let ghost fs = fields@.map_values(|p: (String, FieldValue)| (p.0@, p.1@));
    let n = fields.len();
    assert(fs.subrange(0, n as int) =~= fs);
    let mut i: usize = 0;
    while i < n
        invariant
            n == fields.len(),
            i <= n,
            fs == fields@.map_values(|p: (String, FieldValue)| (p.0@, p.1@)),
            field_lookup(fs, key@) == field_lookup(fs.subrange(i as int, n as int), key@),
        decreases n - i,
    {
        assert(fs.subrange(i as int, n as int)[0] == fs[i as int]);
        if fields[i].0 == *key {
            return Some(&fields[i].1);
        }
        assert(fs.subrange(i as int, n as int).subrange(
            1,
            fs.subrange(i as int, n as int).len() as int,
        ) =~= fs.subrange(i + 1, n as int));
        i = i + 1;
    }
    assert(fs.subrange(n as int, n as int) =~= Seq::<(Seq<char>, SpecFieldValue)>::empty());
    None
}

/// Why resolution or emission rejected the configuration: an authoring error
/// in the document, fatal to the whole run.
#[derive(Debug)]
pub enum ConfigError {
    /// The named endpoint has a `require` field that is not a list of strings.
    RequireNotList { endpoint: String },
    /// The named endpoint's root value is not a table of fields.
    EntryNotTable { endpoint: String },
    /// The named field of the named endpoint should hold a single string.
    FieldNotString { endpoint: String, key: String },
    /// The root isolated-runtime setting is present but is not a string.
    BasePathNotString,
}

/// Ghost form of a configuration error.
pub enum SpecConfigError {
    RequireNotList { endpoint: Seq<char> },
    EntryNotTable { endpoint: Seq<char> },
    FieldNotString { endpoint: Seq<char>, key: Seq<char> },
    BasePathNotString,
}

impl View for ConfigError {
    type V = SpecConfigError;

    open spec fn view(&self) -> SpecConfigError {
        match self {
            ConfigError::RequireNotList { endpoint } => SpecConfigError::RequireNotList {
                endpoint: endpoint@,
            },
            ConfigError::EntryNotTable { endpoint } => SpecConfigError::EntryNotTable {
                endpoint: endpoint@,
            },
            ConfigError::FieldNotString { endpoint, key } => SpecConfigError::FieldNotString {
                endpoint: endpoint@,
                key: key@,
            },
            ConfigError::BasePathNotString => SpecConfigError::BasePathNotString,
        }
    }
}

} // verus!

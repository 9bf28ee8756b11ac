//! Plugins that read particular detail elements into the flattened form of
//! an event, and the plugin for the group element `__group`.
use vstd::prelude::*;
use crate::cot_xml::{FlatCotEvent, FlatCotEventV};
use crate::elements::opt_text;
use crate::json::{JsonMap, JsonV, JsonValue};
use crate::text::{copy_string, str_eq, string_of};

verus! {

/// A reader of one kind of detail element: which tags it reads, the key
/// and value it reads from an element's attributes, and how that value
/// enters the flattened event.
pub trait DetailPlugin: Send + Sync {
    /// Whether the plugin reads elements with tag `tag`.
    spec fn reads_tag(&self, tag: Seq<char>) -> bool;

    /// The key and value the plugin reads from attributes, if any.
    spec fn reading(&self, attributes: Map<Seq<char>, JsonV>) -> Option<(Seq<char>, JsonV)>;

    /// The flattened event after the plugin puts a read value into it.
    spec fn enriched(&self, flat: FlatCotEventV, key: Seq<char>, val: JsonV) -> FlatCotEventV;

    /// Whether the plugin reads elements with tag `tag`.
    fn matches(&self, tag: &str) -> (r: bool)
        ensures
            r == self.reads_tag(tag@),
    ;

    /// The key and value read from an element's attributes (text members).
    fn parse(&self, attributes: &JsonMap) -> (r: Option<(String, JsonValue)>)
        ensures
            match r {
                Some(p) => self.reading(attributes@) == Some((p.0@, p.1@)),
                None => self.reading(attributes@) is None,
            },
    ;

    /// Puts a read value into the flattened event.
    fn enrich_flat(&self, flat: &mut FlatCotEvent, key: &str, val: &JsonValue)
        ensures
            final(flat)@ == self.enriched(old(flat)@, key@, val@),
    ;
}

/// The plugin for the group element `__group`: its `name` attribute
/// becomes the event's group name.
pub struct GroupPlugin;

impl DetailPlugin for GroupPlugin {
    open spec fn reads_tag(&self, tag: Seq<char>) -> bool {
        tag == "__group"@
    }

    open spec fn reading(&self, attributes: Map<Seq<char>, JsonV>) -> Option<(Seq<char>, JsonV)> {
        if attributes.contains_key("name"@) && attributes["name"@] is Str {
            Some(("group_name"@, attributes["name"@]))
        } else {
            None
        }
    }

    open spec fn enriched(&self, flat: FlatCotEventV, key: Seq<char>, val: JsonV) -> FlatCotEventV {
        if key == "group_name"@ {
            FlatCotEventV {
                group_name: match val {
                    JsonV::Str(s) => Some(s),
                    _ => None,
                },
                ..flat
            }
        } else {
            flat
        }
    }

    /// Reads `__group` elements.
    fn matches(&self, tag: &str) -> (r: bool)
        ensures
            r == (tag@ == "__group"@),
    {
        str_eq(tag, "__group")
    }

    /// The `name` attribute, under the key `group_name`.
    fn parse(&self, attributes: &JsonMap) -> (r: Option<(String, JsonValue)>)
        ensures
            match r {
                Some(p) => attributes@.contains_key("name"@) && attributes@["name"@] is Str && p.0@ == "group_name"@
                    && p.1@ == attributes@["name"@],
                None => !(attributes@.contains_key("name"@) && attributes@["name"@] is Str),
            },
    {
        match attributes.get("name") {
            Some(JsonValue::Str(name)) => Some((string_of("group_name"), JsonValue::Str(copy_string(name)))),
            _ => None,
        }
    }

    /// A `group_name` sets the event's group name to the value's text (none
    /// where the value is not text); other keys change nothing.
    fn enrich_flat(&self, flat: &mut FlatCotEvent, key: &str, val: &JsonValue)
        ensures
            key@ == "group_name"@ ==> opt_text(final(flat).group_name) == match val@ {
                JsonV::Str(s) => Some(s),
                _ => None,
            } && same_but_group(*final(flat), *old(flat)),
            key@ != "group_name"@ ==> *final(flat) == *old(flat),
    {
        if str_eq(key, "group_name") {
            flat.group_name = match val {
                JsonValue::Str(s) => Some(copy_string(s)),
                _ => None,
            };
        }
    }
}

/// Two flattened events that agree in everything but the group name.
pub open spec fn same_but_group(a: FlatCotEvent, b: FlatCotEvent) -> bool {
    a == FlatCotEvent { group_name: a.group_name, ..b }
}

/// The registered plugins, in order of registration.
pub struct PluginRegistry {
    plugins: Vec<Box<dyn DetailPlugin>>,
}

impl PluginRegistry {
    /// No plugins.
    pub fn new() -> (r: PluginRegistry)
        ensures
            r.registered() == Seq::<Box<dyn DetailPlugin>>::empty(),
    {
        PluginRegistry { plugins: Vec::new() }
    }

    /// The registered plugins, in order.
    pub closed spec fn registered(&self) -> Seq<Box<dyn DetailPlugin>> {
        self.plugins@
    }

    /// Registers a plugin after those registered before.
    pub fn register(&mut self, plugin: Box<dyn DetailPlugin>)
        ensures
            final(self).registered() == old(self).registered().push(plugin),
    {
        self.plugins.push(plugin);
    }

    /// Lets each registered plugin, in order, that reads tag `tag` read the
    /// attributes and put what it reads into the flattened event (see
    /// `handled`).
    pub fn handle(&self, tag: &str, attrs: &JsonMap, flat: &mut FlatCotEvent)
        ensures
            final(flat)@ == handled(self.registered(), tag@, attrs@, old(flat)@, self.registered().len() as int),
    {
        let ghost start = flat@;
        let mut i: usize = 0;
        while i < self.plugins.len()
            invariant
                i <= self.plugins@.len(),
                flat@ == handled(self.plugins@, tag@, attrs@, start, i as int),
            decreases self.plugins@.len() - i,
        {
            let ghost before = flat@;
            let plugin = &self.plugins[i];
            if plugin.matches(tag) {
                match plugin.parse(attrs) {
                    Some((key, value)) => {
                        plugin.enrich_flat(flat, key.as_str(), &value);
                    },
                    None => {},
                }
            }
            assert(flat@ == plugin_step(self.plugins@, i as int, tag@, attrs@, before));
            i = i + 1;
        }
    }
}

/// What plugin `j` makes of the flattened event `flat` for an element with
/// tag `tag` and attributes `attrs`: if it reads the tag and reads a key and
/// value from the attributes, it puts them in; else nothing changes.
pub open spec fn plugin_step(
    plugins: Seq<Box<dyn DetailPlugin>>,
    j: int,
    tag: Seq<char>,
    attrs: Map<Seq<char>, JsonV>,
    flat: FlatCotEventV,
) -> FlatCotEventV {
    if plugins[j].reads_tag(tag) {
        match plugins[j].reading(attrs) {
            Some((k, v)) => plugins[j].enriched(flat, k, v),
            None => flat,
        }
    } else {
        flat
    }
}

/// The flattened event after the first `n` plugins, in order, have had
/// their step (see `plugin_step`).
pub open spec fn handled(
    plugins: Seq<Box<dyn DetailPlugin>>,
    tag: Seq<char>,
    attrs: Map<Seq<char>, JsonV>,
    flat: FlatCotEventV,
    n: int,
) -> FlatCotEventV
    decreases n,
{
    if n <= 0 {
        flat
    } else {
        plugin_step(plugins, n - 1, tag, attrs, handled(plugins, tag, attrs, flat, n - 1))
    }
}

} // verus!

//! The launcher's configuration and the rules read from it.
use vstd::prelude::*;

use crate::entry::{exec_name_of, name_of, strs, ListEntry};
use crate::text::{replace, replace_all};

verus! {

/// The front-ends the launcher knows.
#[derive(Debug, PartialEq, Eq, Structural, Hash, Clone, Copy)]
pub enum UiTag {
    Iced,
    Smithay,
    Crossterm,
}

/// The sources of entries built into the launcher.
#[derive(Debug, PartialEq, Eq, Structural, Hash, Clone, Copy)]
pub enum BuiltinPlugins {
    Freedesktop,
    RawPath,
}

/// Where a scripted source is read from, and what it is called.
#[derive(Debug, Clone)]
pub struct LuaConfig {
    pub name: Option<String>,
    pub file: String,
}

/// The sources of entries loaded at run time.
#[derive(Debug, Clone)]
pub enum LoadablePlugins {
    Dummy,
    Lua(LuaConfig),
}

/// Settings of one front-end.
#[derive(Debug, PartialEq, Eq, Structural, Clone, Copy)]
pub struct UiConfig {
    pub enable: bool,
    pub default: Option<bool>,
}

impl Default for UiConfig {
    fn default() -> (r: Self)
        ensures
            r.enable,
            r.default.is_none(),
    {
        UiConfig { enable: true, default: None }
    }
}

/// Everything the launcher is configured with. A front-end named more than
/// once in `interfaces` takes its first settings.
#[derive(Debug, Clone, Default)]
pub struct Config {
    pub terminal: Option<String>,
    pub language: Option<String>,
    pub builtin_plugins: Vec<BuiltinPlugins>,
    pub loaded_plugins: Vec<LoadablePlugins>,
    pub interfaces: Vec<(UiTag, UiConfig)>,
}

/// The first settings given for `tag` in `s`.
pub open spec fn ui_settings(s: Seq<(UiTag, UiConfig)>, tag: UiTag) -> Option<UiConfig>
    decreases s.len(),
{
    if s.len() == 0 {
        None
    } else if s[0].0 == tag {
        Some(s[0].1)
    } else {
        ui_settings(s.drop_first(), tag)
    }
}

/// A front-end is enabled unless its settings turn it off.
pub open spec fn enabled(c: Config, tag: UiTag) -> bool {
    match ui_settings(c.interfaces@, tag) {
        Some(u) => u.enable,
        None => true,
    }
}

/// What the settings of an enabled `tag` say about being the default.
pub open spec fn default_wish(c: Config, tag: UiTag, wish: Option<bool>) -> bool {
    enabled(c, tag) && match ui_settings(c.interfaces@, tag) {
        Some(u) => u.default == wish,
        None => wish.is_none(),
    }
}

/// The front-end to run when none is asked for: the first of Iced,
/// Crossterm, Smithay that asks to be the default; else the first of
/// Smithay, Crossterm, Iced that is enabled and silent about it; else the
/// first of those that is enabled at all.
pub open spec fn default_ui(c: Config) -> UiTag {
    if default_wish(c, UiTag::Iced, Some(true)) {
        UiTag::Iced
    } else if default_wish(c, UiTag::Crossterm, Some(true)) {
        UiTag::Crossterm
    } else if default_wish(c, UiTag::Smithay, Some(true)) {
        UiTag::Smithay
    } else if default_wish(c, UiTag::Smithay, None) {
        UiTag::Smithay
    } else if default_wish(c, UiTag::Crossterm, None) {
        UiTag::Crossterm
    } else if default_wish(c, UiTag::Iced, None) {
        UiTag::Iced
    } else if enabled(c, UiTag::Smithay) {
        UiTag::Smithay
    } else if enabled(c, UiTag::Crossterm) {
        UiTag::Crossterm
    } else {
        UiTag::Iced
    }
}

/// The words of a command after the first, each preceded by a space.
pub open spec fn spaced(words: Seq<Seq<char>>) -> Seq<char>
    decreases words.len(),
{
    if words.len() == 0 {
        Seq::empty()
    } else {
        spaced(words.drop_last()) + seq![' '] + words.last()
    }
}

/// The terminal command for `e`: the template (or `$COMMAND`) with the
/// display name, the program name, the arguments and the whole command put
/// in for their placeholders, in that order.
pub open spec fn terminal_command(c: Config, e: ListEntry) -> Seq<char> {
    let binary = exec_name_of(e).unwrap();
    let flags = spaced(strs(e.exec_command@).drop_first());
    let command = binary + seq![' '] + flags;
    let template = match c.terminal {
        Some(t) => t@,
        None => "$COMMAND"@,
    };
    replace_all(
        replace_all(
            replace_all(replace_all(template, "$DISPLAY_NAME"@, name_of(e)), "$BINARY"@, binary),
            "$FLAGS"@,
            flags,
        ),
        "$COMMAND"@,
        command,
    )
}

impl UiTag {
    /// Every front-end, in the order they are asked whether they want to be
    /// the default.
    pub fn all() -> (r: Vec<UiTag>)
        ensures
            r@ == seq![UiTag::Iced, UiTag::Crossterm, UiTag::Smithay],
    {
        let r = vec![UiTag::Iced, UiTag::Crossterm, UiTag::Smithay];
        assert(r@ =~= seq![UiTag::Iced, UiTag::Crossterm, UiTag::Smithay]);
        r
    }
}

impl Config {
    fn settings(&self, tag: UiTag) -> (r: Option<UiConfig>)
        ensures
            r == ui_settings(self.interfaces@, tag),
    {
        let mut i: usize = 0;
        assert(self.interfaces@.subrange(0, self.interfaces@.len() as int) =~= self.interfaces@);
        while i < self.interfaces.len()
            invariant
                i <= self.interfaces.len(),
                ui_settings(self.interfaces@, tag) == ui_settings(
                    self.interfaces@.subrange(i as int, self.interfaces@.len() as int),
                    tag,
                ),
            decreases self.interfaces.len() - i,
        {
            let ghost rest = self.interfaces@.subrange(i as int, self.interfaces@.len() as int);
            if self.interfaces[i].0 == tag {
                return Some(self.interfaces[i].1);
            }
            i += 1;
            assert(rest.drop_first() =~= self.interfaces@.subrange(
                i as int,
                self.interfaces@.len() as int,
            ));
        }
        None
    }

    /// Whether `tag` is enabled.
    pub fn is_interface_enabled(&self, tag: UiTag) -> (r: bool)
        ensures
            r == enabled(*self, tag),
    {
        match self.settings(tag) {
            Some(u) => u.enable,
            None => true,
        }
    }

    fn wishes(&self, tag: UiTag, wish: Option<bool>) -> (r: bool)
        ensures
            r == default_wish(*self, tag, wish),
    {
        if !self.is_interface_enabled(tag) {
            return false;
        }
        match self.settings(tag) {
            Some(u) => u.default == wish,
            None => wish.is_none(),
        }
    }

    /// The front-end to run when none is asked for; some front-end must be
    /// enabled.
    pub fn default_interface(&self) -> (r: UiTag)
        requires
            enabled(*self, UiTag::Iced) || enabled(*self, UiTag::Crossterm) || enabled(
                *self,
                UiTag::Smithay,
            ),
        ensures
            r == default_ui(*self),
            enabled(*self, r),
    {
        if self.wishes(UiTag::Iced, Some(true)) {
            UiTag::Iced
        } else if self.wishes(UiTag::Crossterm, Some(true)) {
            UiTag::Crossterm
        } else if self.wishes(UiTag::Smithay, Some(true)) {
            UiTag::Smithay
        } else if self.wishes(UiTag::Smithay, None) {
            UiTag::Smithay
        } else if self.wishes(UiTag::Crossterm, None) {
            UiTag::Crossterm
        } else if self.wishes(UiTag::Iced, None) {
            UiTag::Iced
        } else if self.is_interface_enabled(UiTag::Smithay) {
            UiTag::Smithay
        } else if self.is_interface_enabled(UiTag::Crossterm) {
            UiTag::Crossterm
        } else {
            UiTag::Iced
        }
    }

    /// The command that runs `entry` in the configured terminal; the entry
    /// must have a command.
    pub fn make_terminal_command(&self, entry: &ListEntry) -> (r: String)
        requires
            entry.exec_command.len() > 0,
        ensures
            r@ == terminal_command(*self, *entry),
    {
        let binary = match entry.exec_name() {
            Some(b) => b,
            None => String::new(),
        };
        let mut flags = String::new();
        let mut i: usize = 1;
        while i < entry.exec_command.len()
            invariant
                1 <= i <= entry.exec_command.len(),
                flags@ == spaced(strs(entry.exec_command@).subrange(1, i as int)),
            decreases entry.exec_command.len() - i,
        {
            flags.append(" ");
            flags.append(entry.exec_command[i].as_str());
            i += 1;
            proof {
                let s = strs(entry.exec_command@).subrange(1, i as int);
                assert(s.drop_last() =~= strs(entry.exec_command@).subrange(1, i - 1));
                reveal_strlit(" ");
            }
        }
        assert(strs(entry.exec_command@).subrange(1, i as int) =~= strs(
            entry.exec_command@,
        ).drop_first());
        let mut command = binary.clone();
        command.append(" ");
        command.append(flags.as_str());
        proof {
            reveal_strlit(" ");
        }
        let name = entry.name();
        let mut raw = match &self.terminal {
            Some(t) => t.clone(),
            None => String::from_str("$COMMAND"),
        };
        proof {
            reveal_strlit("$DISPLAY_NAME");
            reveal_strlit("$BINARY");
            reveal_strlit("$FLAGS");
            reveal_strlit("$COMMAND");
        }
        assert(flags@ == spaced(strs(entry.exec_command@).drop_first()));
        assert(Some(binary@) == exec_name_of(*entry));
        assert(command@ == binary@ + seq![' '] + flags@);
        assert(raw@ == match self.terminal { Some(t) => t@, None => "$COMMAND"@ });
        raw = replace(raw.as_str(), "$DISPLAY_NAME", name.as_str());
        raw = replace(raw.as_str(), "$BINARY", binary.as_str());
        raw = replace(raw.as_str(), "$FLAGS", flags.as_str());
        raw = replace(raw.as_str(), "$COMMAND", command.as_str());
        raw
    }
}

} // verus!

use vstd::prelude::*;

verus! {

/// The eleven capability flags a host advertises, all off until enabled.
#[derive(Debug, Clone, Copy, PartialEq, Eq, Structural)]
pub struct OscHostInfoExtension {
    pub access: bool,
    pub value: bool,
    pub range: bool,
    pub description: bool,
    pub tags: bool,
    pub extended_type: bool,
    pub unit: bool,
    pub critical: bool,
    pub clipmode: bool,
    pub listen: bool,
    pub path_changed: bool,
}

/// The extension set with every flag off.
pub open spec fn ext_all_false() -> OscHostInfoExtension {
    OscHostInfoExtension {
        access: false,
        value: false,
        range: false,
        description: false,
        tags: false,
        extended_type: false,
        unit: false,
        critical: false,
        clipmode: false,
        listen: false,
        path_changed: false,
    }
}

impl Default for OscHostInfoExtension {
    fn default() -> (r: Self)
        ensures
            r == ext_all_false(),
    {
        OscHostInfoExtension {
            access: false,
            value: false,
            range: false,
            description: false,
            tags: false,
            extended_type: false,
            unit: false,
            critical: false,
            clipmode: false,
            listen: false,
            path_changed: false,
        }
    }
}

/// The root-only host descriptor: device name, transport address and kind,
/// and the capability flags.
#[derive(Debug)]
pub struct OscHostInfo {
    pub name: String,
    pub osc_ip: String,
    pub osc_port: u16,
    pub osc_trans: String,
    pub extension: OscHostInfoExtension,
}

/// The mathematical shape of a host descriptor.
pub ghost struct GHostInfo {
    pub name: Seq<char>,
    pub osc_ip: Seq<char>,
    pub osc_port: u16,
    pub osc_trans: Seq<char>,
    pub extension: OscHostInfoExtension,
}

impl View for OscHostInfo {
    type V = GHostInfo;

    open spec fn view(&self) -> GHostInfo {
        GHostInfo {
            name: self.name@,
            osc_ip: self.osc_ip@,
            osc_port: self.osc_port,
            osc_trans: self.osc_trans@,
            extension: self.extension,
        }
    }
}

impl OscHostInfo {
    /// A fresh descriptor: transport defaults to `UDP`, every flag off.
    pub fn new(device_name: String, osc_ip: String, osc_port: u16) -> (r: Self)
        ensures
            r@ == (GHostInfo {
                name: device_name@,
                osc_ip: osc_ip@,
                osc_port: osc_port,
                osc_trans: "UDP"@,
                extension: ext_all_false(),
            }),
    {
        OscHostInfo {
            name: device_name,
            osc_ip,
            osc_port,
            osc_trans: String::from_str("UDP"),
            extension: OscHostInfoExtension::default(),
        }
    }

    /// Enables the access extension and nothing else.
    pub fn with_ext_access(self) -> (r: Self)
        ensures
            r@ == (GHostInfo {
                extension: OscHostInfoExtension { access: true, ..self@.extension },
                ..self@
            }),
    {
        let mut s = self;
        s.extension.access = true;
        s
    }

    /// Enables the clipmode extension and nothing else.
    pub fn with_ext_clipmode(self) -> (r: Self)
        ensures
            r@ == (GHostInfo {
                extension: OscHostInfoExtension { clipmode: true, ..self@.extension },
                ..self@
            }),
    {
        let mut s = self;
        s.extension.clipmode = true;
        s
    }

    /// Enables the critical extension and nothing else.
    pub fn with_ext_critical(self) -> (r: Self)
        ensures
            r@ == (GHostInfo {
                extension: OscHostInfoExtension { critical: true, ..self@.extension },
                ..self@
            }),
    {
        let mut s = self;
        s.extension.critical = true;
        s
    }

    /// Enables the description extension and nothing else.
    pub fn with_ext_description(self) -> (r: Self)
        ensures
            r@ == (GHostInfo {
                extension: OscHostInfoExtension { description: true, ..self@.extension },
                ..self@
            }),
    {
        let mut s = self;
        s.extension.description = true;
        s
    }

    /// Enables the extended-type extension and nothing else.
    pub fn with_ext_extended_type(self) -> (r: Self)
        ensures
            r@ == (GHostInfo {
                extension: OscHostInfoExtension { extended_type: true, ..self@.extension },
                ..self@
            }),
    {
        let mut s = self;
        s.extension.extended_type = true;
        s
    }

    /// Enables the listen extension and nothing else.
    pub fn with_ext_listen(self) -> (r: Self)
        ensures
            r@ == (GHostInfo {
                extension: OscHostInfoExtension { listen: true, ..self@.extension },
                ..self@
            }),
    {
        let mut s = self;
        s.extension.listen = true;
        s
    }

    /// Enables the path-changed extension and nothing else.
    pub fn with_ext_path_changed(self) -> (r: Self)
        ensures
            r@ == (GHostInfo {
                extension: OscHostInfoExtension { path_changed: true, ..self@.extension },
                ..self@
            }),
    {
        let mut s = self;
        s.extension.path_changed = true;
        s
    }

    /// Enables the range extension and nothing else.
    pub fn with_ext_range(self) -> (r: Self)
        ensures
            r@ == (GHostInfo {
                extension: OscHostInfoExtension { range: true, ..self@.extension },
                ..self@
            }),
    {
        let mut s = self;
        s.extension.range = true;
        s
    }

    /// Enables the tags extension and nothing else.
    pub fn with_ext_tags(self) -> (r: Self)
        ensures
            r@ == (GHostInfo {
                extension: OscHostInfoExtension { tags: true, ..self@.extension },
                ..self@
            }),
    {
        let mut s = self;
        s.extension.tags = true;
        s
    }

    /// Enables the unit extension and nothing else.
    pub fn with_ext_unit(self) -> (r: Self)
        ensures
            r@ == (GHostInfo {
                extension: OscHostInfoExtension { unit: true, ..self@.extension },
                ..self@
            }),
    {
        let mut s = self;
        s.extension.unit = true;
        s
    }

    /// Enables the value extension and nothing else.
    pub fn with_ext_value(self) -> (r: Self)
        ensures
            r@ == (GHostInfo {
                extension: OscHostInfoExtension { value: true, ..self@.extension },
                ..self@
            }),
    {
        let mut s = self;
        s.extension.value = true;
        s
    }
}

} // verus!

use vstd::hash_map::StringHashMap;
use vstd::prelude::*;

verus! {

/// One server instance as a resolution response describes it.
pub struct InstanceInfo {
    /// Host identifier as the server reports it.
    pub server_name: String,
    /// Name of the instance on that host.
    pub instance_name: String,
    /// Whether the server reports the instance as clustered.
    pub is_clustered: bool,
    /// Dotted version string, kept as reported.
    pub version: String,
    /// Endpoint value per protocol name (`"tcp"`, `"np"`).
    pub protocol_info: StringHashMap<String>,
}

/// The mathematical content of an [`InstanceInfo`].
pub struct InstanceRecord {
    pub server_name: Seq<char>,
    pub instance_name: Seq<char>,
    pub is_clustered: bool,
    pub version: Seq<char>,
    pub protocol_info: Map<Seq<char>, Seq<char>>,
}

impl InstanceRecord {
    /// The record in which nothing has been reported yet.
    pub open spec fn empty() -> InstanceRecord {
        InstanceRecord {
            server_name: Seq::empty(),
            instance_name: Seq::empty(),
            is_clustered: false,
            version: Seq::empty(),
            protocol_info: Map::empty(),
        }
    }
}

impl View for InstanceInfo {
    type V = InstanceRecord;

    open spec fn view(&self) -> InstanceRecord {
        InstanceRecord {
            server_name: self.server_name@,
            instance_name: self.instance_name@,
            is_clustered: self.is_clustered,
            version: self.version@,
            protocol_info: self.protocol_info@.map_values(|value: String| value@),
        }
    }
}

impl DeepView for InstanceInfo {
    type V = InstanceRecord;

    open spec fn deep_view(&self) -> InstanceRecord {
        self@
    }
}

impl Default for InstanceInfo {
    /// An instance of which nothing has been reported yet.
    fn default() -> (info: InstanceInfo)
        ensures
            info@ == InstanceRecord::empty(),
    {
        InstanceInfo::new()
    }
}

impl InstanceInfo {
    /// An instance with empty names, no version, not clustered and no endpoint.
    pub fn new() -> (info: InstanceInfo)
        ensures
            info@ == InstanceRecord::empty(),
    {
        let info = InstanceInfo {
            server_name: String::new(),
            instance_name: String::new(),
            is_clustered: false,
            version: String::new(),
            protocol_info: StringHashMap::new(),
        };
        assert(info@.protocol_info =~= Map::empty());
        info
    }
}

} // verus!

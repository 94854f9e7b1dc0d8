//! The choice of devices, which is made once, when a window opens.
use crate::config::{text_of_option, Config};
use crate::error::{Error, ErrorKind};
use crate::network::{first_named, folded_names, select_interface, sole_candidate, InterfaceSnapshot};
use crate::nvme::DiskDevice;
use crate::text::{lowercased, quoted, texts};
use vstd::prelude::*;

verus! {

#[derive(Debug, PartialEq, Eq)]
pub struct Sources {
    pub network_luid: Option<u64>,
    pub network_name: Option<String>,
    pub disk: Option<DiskDevice>,
}

fn copy_of(text: &Option<String>) -> (r: Option<String>)
    ensures
        r == *text,
{
    match text {
        Some(text) => Some(text.clone()),
        None => None,
    }
}

impl Clone for Sources {
    fn clone(&self) -> (r: Sources)
        ensures
            r == *self,
    {
        Sources {
            network_luid: self.network_luid,
            network_name: copy_of(&self.network_name),
            disk: match &self.disk {
                Some(disk) => Some(disk.clone()),
                None => None,
            },
        }
    }
}

/// The outcome of choosing devices, and what to tell the user on the way.
#[derive(Debug)]
pub struct Selection {
    pub warnings: Vec<String>,
    pub sources: Result<Sources, Error>,
}

/// The interface that is chosen from a list: the first of the requested name,
/// or the only candidate.
pub open spec fn is_chosen(
    interfaces: Seq<InterfaceSnapshot>,
    requested: Option<String>,
    at: int,
) -> bool {
    match requested {
        Some(name) => first_named(
            interfaces,
            folded_names(interfaces),
            lowercased(name@),
            at,
        ),
        None => sole_candidate(interfaces, at),
    }
}

/// Whether some interface is chosen.
pub open spec fn any_chosen(
    interfaces: Seq<InterfaceSnapshot>,
    requested: Option<String>,
) -> bool {
    exists|at: int| is_chosen(interfaces, requested, at)
}

/// Whether a requested device stops the choice: a failed enumeration does, and
/// so does an interface that is not there.
pub open spec fn network_refused(
    config: Config,
    interfaces: Result<Vec<InterfaceSnapshot>, Error>,
) -> bool {
    config.interface is Some && match interfaces {
        Ok(list) => !any_chosen(list@, config.interface),
        Err(_) => true,
    }
}

/// The warnings that a choice brings: one for each enumeration that failed and
/// that nobody asked for. A choice that the network stops brings none.
pub open spec fn warnings_said(
    config: Config,
    interfaces: Result<Vec<InterfaceSnapshot>, Error>,
    disk: Result<Option<DiskDevice>, Error>,
) -> Seq<Seq<char>> {
    if network_refused(config, interfaces) {
        seq![]
    } else {
        let network = match interfaces {
            Ok(_) => seq![],
            Err(e) => seq!["网络接口枚举失败，继续显示其它指标："@ + e.message@],
        };
        match disk {
            Err(e) if config.disk is None => network.push(
                "NVMe 枚举失败，继续显示其它指标："@ + e.message@,
            ),
            _ => network,
        }
    }
}

/// Whether `sources` names the chosen interface, or none if none is chosen.
pub open spec fn names_network(
    sources: Sources,
    config: Config,
    interfaces: Result<Vec<InterfaceSnapshot>, Error>,
) -> bool {
    match interfaces {
        Ok(list) if any_chosen(list@, config.interface) => exists|at: int|
            #[trigger] is_chosen(list@, config.interface, at) && sources.network_luid == Some(
                list@[at].luid,
            ) && text_of_option(sources.network_name) == Some(list@[at].name@),
        _ => sources.network_luid is None && sources.network_name is None,
    }
}

/// The chosen interface, or the refusal of a requested one that is not there.
fn choose_interface<'a>(config: &Config, list: &'a [InterfaceSnapshot]) -> (r: Result<
    Option<&'a InterfaceSnapshot>,
    Error,
>)
    ensures
        match r {
            Ok(Some(chosen)) => exists|at: int| #[trigger]
                is_chosen(list@, config.interface, at) && *chosen == list@[at],
            Ok(None) => config.interface is None && !any_chosen(list@, config.interface),
            Err(e) => config.interface is Some && !any_chosen(list@, config.interface) && e.says(
                ErrorKind::NotFound,
                "未找到名为 "@ + quoted(config.interface->0@) + " 的物理 WLAN 接口"@,
            ),
        },
{
    let requested = match &config.interface {
        Some(name) => Some(name.as_str()),
        None => None,
    };
    let r = select_interface(list, requested);
    proof {
        if let Ok(Some(chosen)) = r {
            let at = match &config.interface {
                Some(name) => choose|at: int|
                    first_named(list@, folded_names(list@), lowercased(name@), at) && *chosen
                        == list@[at],
                None => choose|at: int| sole_candidate(list@, at) && *chosen == list@[at],
            };
            assert(is_chosen(list@, config.interface, at));
        }
    }
    r
}

/// Whether the interfaces alone stop the choice, so that no disk has to be looked for.
pub fn refuses_network(
    config: &Config,
    interfaces: &Result<Vec<InterfaceSnapshot>, Error>,
) -> (r: bool)
    ensures
        r == network_refused(*config, *interfaces),
{
    match interfaces {
        Ok(list) => choose_interface(config, list.as_slice()).is_err(),
        Err(_) => config.interface.is_some(),
    }
}

/// Chooses the devices from the enumerated interfaces and the outcome of
/// choosing a disk. What was requested must be there; what was not requested
/// may be missing, and then the other readings are still shown.
pub fn select(
    config: &Config,
    interfaces: Result<Vec<InterfaceSnapshot>, Error>,
    disk: Result<Option<DiskDevice>, Error>,
) -> (r: Selection)
    ensures
        texts(r.warnings@) == warnings_said(*config, interfaces, disk),
        r.sources is Err <==> network_refused(*config, interfaces) || (config.disk is Some
            && disk is Err),
        match r.sources {
            Ok(sources) => names_network(sources, *config, interfaces) && sources.disk == match disk {
                Ok(chosen) => chosen,
                Err(_) => None,
            },
            Err(e) => if network_refused(*config, interfaces) {
                match interfaces {
                    Ok(_) => e.says(
                        ErrorKind::NotFound,
                        "未找到名为 "@ + quoted(config.interface->0@) + " 的物理 WLAN 接口"@,
                    ),
                    Err(cause) => e == cause,
                }
            } else {
                disk matches Err(cause) && e == cause
            },
        },
{
    let mut warnings: Vec<String> = Vec::new();
    let mut network_luid: Option<u64> = None;
    let mut network_name: Option<String> = None;
    match &interfaces {
        Ok(list) => match choose_interface(config, list.as_slice()) {
            Ok(Some(chosen)) => {
                network_luid = Some(chosen.luid);
                network_name = Some(chosen.name.clone());
                assert(any_chosen(list@, config.interface));
            },
            Ok(None) => {},
            Err(e) => {
                assert(texts(warnings@) =~= seq![]);
                return Selection { warnings, sources: Err(e) };
            },
        },
        Err(e) => {
            if config.interface.is_some() {
                assert(texts(warnings@) =~= seq![]);
                return Selection { warnings, sources: Err(e.clone()) };
            }
            let mut warning = String::from_str("网络接口枚举失败，继续显示其它指标：");
            warning.append(e.message.as_str());
            warnings.push(warning);
        },
    }
    let ghost network_warnings = match interfaces {
        Ok(_) => seq![],
        Err(e) => seq!["网络接口枚举失败，继续显示其它指标："@ + e.message@],
    };
    assert(texts(warnings@) =~= network_warnings);
    let disk = match disk {
        Ok(chosen) => chosen,
        Err(e) => {
            if config.disk.is_some() {
                return Selection { warnings, sources: Err(e) };
            }
            let mut warning = String::from_str("NVMe 枚举失败，继续显示其它指标：");
            warning.append(e.message.as_str());
            let ghost before = warnings@;
            warnings.push(warning);
            assert(texts(warnings@) =~= texts(before).push(warning@));
            None
        },
    };
    Selection { warnings, sources: Ok(Sources { network_luid, network_name, disk }) }
}

/// An interface is chosen as it was asked for: with a name, it is the first
/// physical wireless one of that name in lowercase; without one, it is the only
/// physical wireless one.
pub proof fn interfaces_are_chosen_as_asked_for(
    interfaces: Seq<InterfaceSnapshot>,
    name: String,
    at: int,
)
    ensures
        is_chosen(interfaces, None, at) <==> 0 <= at < interfaces.len()
            && interfaces[at].is_hardware && interfaces[at].is_wifi && forall|j: int|
            0 <= j < interfaces.len() && j != at ==> !((#[trigger] interfaces[j]).is_hardware
                && interfaces[j].is_wifi),
        is_chosen(interfaces, Some(name), at) <==> 0 <= at < interfaces.len()
            && interfaces[at].is_hardware && interfaces[at].is_wifi && lowercased(
            interfaces[at].name@,
        ) == lowercased(name@) && forall|j: int|
            0 <= j < at && (#[trigger] interfaces[j]).is_hardware && interfaces[j].is_wifi
                ==> lowercased(interfaces[j].name@) != lowercased(name@),
{
    let names = folded_names(interfaces);
    assert forall|j: int| 0 <= j < interfaces.len() implies #[trigger] names[j] == lowercased(
        interfaces[j].name@,
    ) by {}
    if is_chosen(interfaces, Some(name), at) {
        assert forall|j: int|
            0 <= j < at && (#[trigger] interfaces[j]).is_hardware
                && interfaces[j].is_wifi implies lowercased(interfaces[j].name@) != lowercased(
            name@,
        ) by {
            assert(names[j] != lowercased(name@));
        }
    }
}

/// What was not asked for may be missing: then no choice is refused, and each
/// enumeration that failed brings one warning.
pub proof fn missing_devices_bring_warnings(
    config: Config,
    interfaces: Result<Vec<InterfaceSnapshot>, Error>,
    disk: Result<Option<DiskDevice>, Error>,
)
    requires
        config.interface is None,
        config.disk is None,
    ensures
        !network_refused(config, interfaces),
        warnings_said(config, interfaces, disk).len() == (if interfaces is Err {
            1int
        } else {
            0int
        }) + (if disk is Err {
            1int
        } else {
            0int
        }),
        interfaces matches Err(e) ==> e.message@.is_suffix_of(
            warnings_said(config, interfaces, disk)[0],
        ),
        disk matches Err(e) ==> e.message@.is_suffix_of(
            warnings_said(config, interfaces, disk).last(),
        ),
{
    if let Err(e) = interfaces {
        let w = warnings_said(config, interfaces, disk)[0];
        assert(w == "网络接口枚举失败，继续显示其它指标："@ + e.message@);
        assert(w.subrange(w.len() - e.message@.len(), w.len() as int) =~= e.message@);
    }
    if let Err(e) = disk {
        let w = warnings_said(config, interfaces, disk).last();
        assert(w == "NVMe 枚举失败，继续显示其它指标："@ + e.message@);
        assert(w.subrange(w.len() - e.message@.len(), w.len() as int) =~= e.message@);
    }
}

/// A requested interface that is not there stops the choice, and so does a failed
/// enumeration if one was requested; nothing else of the network does.
pub proof fn only_requested_interfaces_stop_the_choice(
    config: Config,
    list: Vec<InterfaceSnapshot>,
    e: Error,
)
    ensures
        config.interface is None ==> !network_refused(config, Ok(list)) && !network_refused(
            config,
            Err(e),
        ),
        config.interface is Some ==> network_refused(config, Err(e)),
        config.interface matches Some(name) ==> (network_refused(config, Ok(list)) <==> forall|
            at: int,
        |
            !is_chosen(list@, Some(name), at)),
{
}

/// The chosen interface is named by its own identifier and name.
pub proof fn the_chosen_interface_is_named(
    sources: Sources,
    config: Config,
    list: Vec<InterfaceSnapshot>,
    at: int,
)
    requires
        names_network(sources, config, Ok(list)),
        is_chosen(list@, config.interface, at),
    ensures
        sources.network_luid == Some(list@[at].luid),
        sources.network_name matches Some(name) && name@ == list@[at].name@,
{
    assert(any_chosen(list@, config.interface));
    let k = choose|k: int|
        #[trigger] is_chosen(list@, config.interface, k) && sources.network_luid == Some(
            list@[k].luid,
        ) && text_of_option(sources.network_name) == Some(list@[k].name@);
    match config.interface {
        Some(name) => {
            interfaces_are_chosen_as_asked_for(list@, name, at);
            interfaces_are_chosen_as_asked_for(list@, name, k);
            if k < at {
                assert(list@[k].is_hardware);
            }
            if at < k {
                assert(list@[at].is_hardware);
            }
        },
        None => {
            assert(sole_candidate(list@, at) && sole_candidate(list@, k));
        },
    }
    assert(k == at);
}

/// Without a chosen interface, none is named.
pub proof fn no_interface_is_named_without_a_choice(
    sources: Sources,
    config: Config,
    interfaces: Result<Vec<InterfaceSnapshot>, Error>,
)
    requires
        names_network(sources, config, interfaces),
        interfaces matches Ok(list) ==> forall|at: int| !is_chosen(list@, config.interface, at),
    ensures
        sources.network_luid is None,
        sources.network_name is None,
{
}

} // verus!

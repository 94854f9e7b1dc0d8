//! The command line that both window front ends share.
use crate::text::{same, texts};
use vstd::prelude::*;

verus! {

#[derive(Debug, PartialEq, Eq)]
pub struct Config {
    pub interface: Option<String>,
    pub disk: Option<String>,
}

#[derive(Debug, PartialEq, Eq)]
pub enum Command {
    Run(Config),
    ListNetwork,
    ListDisks,
    Help,
}

/// What a configuration says.
pub struct ConfigText {
    pub interface: Option<Seq<char>>,
    pub disk: Option<Seq<char>>,
}

/// What a command says.
pub enum CommandText {
    Run(ConfigText),
    ListNetwork,
    ListDisks,
    Help,
}

pub open spec fn text_of_option(s: Option<String>) -> Option<Seq<char>> {
    match s {
        Some(s) => Some(s@),
        None => None,
    }
}

impl View for Config {
    type V = ConfigText;

    open spec fn view(&self) -> ConfigText {
        ConfigText {
            interface: text_of_option(self.interface),
            disk: text_of_option(self.disk),
        }
    }
}

impl View for Command {
    type V = CommandText;

    open spec fn view(&self) -> CommandText {
        match *self {
            Command::Run(config) => CommandText::Run(config@),
            Command::ListNetwork => CommandText::ListNetwork,
            Command::ListDisks => CommandText::ListDisks,
            Command::Help => CommandText::Help,
        }
    }
}

impl Clone for Config {
    fn clone(&self) -> (r: Config)
        ensures
            r@ == self@,
    {
        Config { interface: self.interface.clone(), disk: self.disk.clone() }
    }
}

impl Default for Config {
    /// Leaves both devices to be found.
    fn default() -> (r: Config)
        ensures
            r@ == no_device(),
    {
        Config { interface: None, disk: None }
    }
}

/// No device is chosen.
pub open spec fn no_device() -> ConfigText {
    ConfigText { interface: None, disk: None }
}

/// Whether the next argument is there and can be the value of an option.
pub open spec fn has_value(rest: Seq<Seq<char>>) -> bool {
    rest.len() > 0 && rest[0].len() > 0 && rest[0][0] != '-'
}

/// The action that an argument asks for.
pub open spec fn action_of(arg: Seq<char>) -> Option<CommandText> {
    if arg == "--help"@ || arg == "-h"@ {
        Some(CommandText::Help)
    } else if arg == "--list-network"@ {
        Some(CommandText::ListNetwork)
    } else if arg == "--list-disks"@ {
        Some(CommandText::ListDisks)
    } else {
        None
    }
}

/// What the arguments ask for, after `config` and `action` have been read:
/// the first argument that cannot stand decides the failure.
pub open spec fn reading(
    args: Seq<Seq<char>>,
    config: ConfigText,
    action: Option<CommandText>,
) -> Result<CommandText, Seq<char>>
    decreases args.len(),
{
    if args.len() == 0 {
        match action {
            Some(action) => if config == no_device() {
                Ok(action)
            } else {
                Err("列表或帮助命令不能与设备选择参数组合"@)
            },
            None => Ok(CommandText::Run(config)),
        }
    } else {
        let arg = args[0];
        let rest = args.skip(1);
        if action_of(arg) is Some {
            if action is Some {
                Err("只能指定一个操作命令"@)
            } else {
                reading(rest, config, action_of(arg))
            }
        } else if arg == "--interface"@ {
            if config.interface is Some {
                Err("--interface 只能指定一次"@)
            } else if !has_value(rest) {
                Err("--interface"@ + " 后需要参数"@)
            } else {
                reading(
                    rest.skip(1),
                    ConfigText { interface: Some(rest[0]), disk: config.disk },
                    action,
                )
            }
        } else if arg == "--disk"@ {
            if config.disk is Some {
                Err("--disk 只能指定一次"@)
            } else if !has_value(rest) {
                Err("--disk"@ + " 后需要参数"@)
            } else {
                reading(
                    rest.skip(1),
                    ConfigText { interface: config.interface, disk: Some(rest[0]) },
                    action,
                )
            }
        } else {
            Err("无法识别参数 "@ + arg + "。请运行 --help 查看可用选项。"@)
        }
    }
}

/// The value of an option: the argument at `at`.
fn value(args: &Vec<String>, at: usize, option: &str) -> (r: Result<String, String>)
    requires
        at <= args.len(),
    ensures
        match r {
            Ok(v) => has_value(texts(args@).skip(at as int)) && v@ == args@[at as int]@,
            Err(e) => !has_value(texts(args@).skip(at as int)) && e@ == option@ + " 后需要参数"@,
        },
{
    if at < args.len() {
        let v = args[at].as_str();
        if v.unicode_len() > 0 && v.get_char(0) != '-' {
            return Ok(v.to_owned());
        }
    }
    let mut message = String::from_str(option);
    message.append(" 后需要参数");
    Err(message)
}

/// Takes up an action, of which there can be only one.
fn set_action(slot: &mut Option<Command>, action: Command) -> (r: Result<(), String>)
    ensures
        match r {
            Ok(()) => *old(slot) is None && *final(slot) == Some(action),
            Err(e) => *old(slot) is Some && *final(slot) == *old(slot) && e@ == "只能指定一个操作命令"@,
        },
{
    if slot.is_some() {
        return Err(String::from_str("只能指定一个操作命令"));
    }
    *slot = Some(action);
    Ok(())
}

spec fn action_text(action: Option<Command>) -> Option<CommandText> {
    match action {
        Some(a) => Some(a@),
        None => None,
    }
}

impl Command {
    /// Reads the arguments after the program's name.
    pub fn parse(args: Vec<String>) -> (r: Result<Command, String>)
        ensures
            match (r, reading(texts(args@), no_device(), None)) {
                (Ok(command), Ok(said)) => command@ == said,
                (Err(message), Err(said)) => message@ == said,
                _ => false,
            },
    {
        let mut config = Config::default();
        let mut action: Option<Command> = None;
        let mut i: usize = 0;
        let ghost all = texts(args@);
        assert(all.skip(0) == all);
        while i < args.len()
            invariant
                i <= args.len(),
                all == texts(args@),
                reading(all, no_device(), None) == reading(
                    all.skip(i as int),
                    config@,
                    action_text(action),
                ),
            decreases args.len() - i,
        {
            let arg = args[i].as_str();
            let ghost here = all.skip(i as int);
            assert(here[0] == arg@);
            assert(here.skip(1) == all.skip(i + 1));
            if same(arg, "--help") || same(arg, "-h") {
                match set_action(&mut action, Command::Help) {
                    Ok(()) => {},
                    Err(message) => return Err(message),
                }
            } else if same(arg, "--list-network") {
                match set_action(&mut action, Command::ListNetwork) {
                    Ok(()) => {},
                    Err(message) => return Err(message),
                }
            } else if same(arg, "--list-disks") {
                match set_action(&mut action, Command::ListDisks) {
                    Ok(()) => {},
                    Err(message) => return Err(message),
                }
            } else if same(arg, "--interface") {
                if config.interface.is_some() {
                    return Err(String::from_str("--interface 只能指定一次"));
                }
                match value(&args, i + 1, "--interface") {
                    Ok(v) => {
                        config.interface = Some(v);
                    },
                    Err(message) => return Err(message),
                }
                assert(here.skip(1).skip(1) == all.skip(i + 2));
                i = i + 1;
            } else if same(arg, "--disk") {
                if config.disk.is_some() {
                    return Err(String::from_str("--disk 只能指定一次"));
                }
                match value(&args, i + 1, "--disk") {
                    Ok(v) => {
                        config.disk = Some(v);
                    },
                    Err(message) => return Err(message),
                }
                assert(here.skip(1).skip(1) == all.skip(i + 2));
                i = i + 1;
            } else {
                let mut message = String::from_str("无法识别参数 ");
                message.append(arg);
                message.append("。请运行 --help 查看可用选项。");
                return Err(message);
            }
            i = i + 1;
        }
        match action {
            Some(action) => {
                if config.interface.is_some() || config.disk.is_some() {
                    return Err(String::from_str("列表或帮助命令不能与设备选择参数组合"));
                }
                Ok(action)
            },
            None => Ok(Command::Run(config)),
        }
    }
}

pub open spec fn help_text(binary: Seq<char>) -> Seq<char> {
    "用法："@ + binary
        + " [--interface 名称] [--disk \\\\.\\PhysicalDriveN]\n选项：\n--interface 名称  选择物理 WLAN 接口\n--disk 路径       选择 NVMe 物理磁盘\n--list-network    列出网络接口\n--list-disks      列出 NVMe 磁盘\n--help, -h        显示帮助"@
}

pub fn help(binary: &str) -> (r: String)
    ensures
        r@ == help_text(binary@),
{
    let mut r = String::from_str("用法：");
    r.append(binary);
    r.append(
        " [--interface 名称] [--disk \\\\.\\PhysicalDriveN]\n选项：\n--interface 名称  选择物理 WLAN 接口\n--disk 路径       选择 NVMe 物理磁盘\n--list-network    列出网络接口\n--list-disks      列出 NVMe 磁盘\n--help, -h        显示帮助",
    );
    r
}

/// With an action and a device, nothing that follows makes the arguments acceptable.
proof fn lemma_action_and_device(args: Seq<Seq<char>>, config: ConfigText, action: CommandText)
    requires
        config != no_device(),
    ensures
        reading(args, config, Some(action)) is Err,
    decreases args.len(),
{
    if args.len() > 0 {
        let rest = args.skip(1);
        if rest.len() > 0 {
            lemma_action_and_device(
                rest.skip(1),
                ConfigText { interface: Some(rest[0]), disk: config.disk },
                action,
            );
            lemma_action_and_device(
                rest.skip(1),
                ConfigText { interface: config.interface, disk: Some(rest[0]) },
                action,
            );
        }
    }
}

/// With a device, only a window can be asked for.
proof fn lemma_device_runs(args: Seq<Seq<char>>, config: ConfigText)
    requires
        config != no_device(),
    ensures
        match reading(args, config, None) {
            Ok(command) => command is Run,
            Err(_) => true,
        },
    decreases args.len(),
{
    if args.len() > 0 {
        let rest = args.skip(1);
        if action_of(args[0]) is Some {
            lemma_action_and_device(rest, config, action_of(args[0])->0);
        } else if rest.len() > 0 {
            lemma_device_runs(
                rest.skip(1),
                ConfigText { interface: Some(rest[0]), disk: config.disk },
            );
            lemma_device_runs(
                rest.skip(1),
                ConfigText { interface: config.interface, disk: Some(rest[0]) },
            );
        }
    }
}

/// Help and the lists are asked for by one argument that stands alone.
pub proof fn actions_stand_alone(args: Seq<Seq<char>>, command: CommandText)
    requires
        !(command is Run),
    ensures
        reading(args, no_device(), None) == Ok::<CommandText, Seq<char>>(command) <==> (args.len()
            == 1 && action_of(args[0]) == Some(command)),
{
    if args.len() > 0 {
        let rest = args.skip(1);
        match action_of(args[0]) {
            Some(action) => {
                if rest.len() > 0 {
                    let more = rest.skip(1);
                    if more.len() > 0 {
                        lemma_action_and_device(
                            more.skip(1),
                            ConfigText { interface: Some(more[0]), disk: None },
                            action,
                        );
                        lemma_action_and_device(
                            more.skip(1),
                            ConfigText { interface: None, disk: Some(more[0]) },
                            action,
                        );
                    }
                } else {
                    assert(reading(rest, no_device(), Some(action))
                        == Ok::<CommandText, Seq<char>>(action));
                }
            },
            None => {
                if rest.len() > 0 {
                    lemma_device_runs(
                        rest.skip(1),
                        ConfigText { interface: Some(rest[0]), disk: None },
                    );
                    lemma_device_runs(
                        rest.skip(1),
                        ConfigText { interface: None, disk: Some(rest[0]) },
                    );
                }
            },
        }
    }
}

/// Whether a text can be the value of an option.
pub open spec fn is_value(v: Option<Seq<char>>) -> bool {
    v matches Some(v) ==> v.len() > 0 && v[0] != '-'
}

proof fn lemma_values(args: Seq<Seq<char>>, config: ConfigText, action: Option<CommandText>)
    requires
        is_value(config.interface),
        is_value(config.disk),
        action matches Some(a) ==> !(a is Run),
    ensures
        match reading(args, config, action) {
            Ok(CommandText::Run(c)) => is_value(c.interface) && is_value(c.disk),
            _ => true,
        },
    decreases args.len(),
{
    if args.len() > 0 {
        let rest = args.skip(1);
        if action_of(args[0]) is Some {
            lemma_values(rest, config, action_of(args[0]));
        } else if has_value(rest) {
            lemma_values(
                rest.skip(1),
                ConfigText { interface: Some(rest[0]), disk: config.disk },
                action,
            );
            lemma_values(
                rest.skip(1),
                ConfigText { interface: config.interface, disk: Some(rest[0]) },
                action,
            );
        }
    }
}

/// An accepted device is never empty and never looks like an option.
pub proof fn chosen_devices_are_values(args: Seq<Seq<char>>)
    ensures
        match reading(args, no_device(), None) {
            Ok(CommandText::Run(c)) => is_value(c.interface) && is_value(c.disk),
            _ => true,
        },
{
    lemma_values(args, no_device(), None);
}

/// The two devices can be named in either order.
pub proof fn device_options_commute(interface: Seq<char>, disk: Seq<char>)
    requires
        is_value(Some(interface)),
        is_value(Some(disk)),
    ensures
        reading(seq!["--interface"@, interface, "--disk"@, disk], no_device(), None) == Ok::<
            CommandText,
            Seq<char>,
        >(CommandText::Run(ConfigText { interface: Some(interface), disk: Some(disk) })),
        reading(seq!["--disk"@, disk, "--interface"@, interface], no_device(), None) == Ok::<
            CommandText,
            Seq<char>,
        >(CommandText::Run(ConfigText { interface: Some(interface), disk: Some(disk) })),
{
    reveal_strlit("--help");
    reveal_strlit("-h");
    reveal_strlit("--list-network");
    reveal_strlit("--list-disks");
    reveal_strlit("--interface");
    reveal_strlit("--disk");
    reveal_with_fuel(reading, 3);
    let a = seq!["--interface"@, interface, "--disk"@, disk];
    let b = seq!["--disk"@, disk, "--interface"@, interface];
    assert(a.skip(1).skip(1) =~= seq!["--disk"@, disk]);
    assert(b.skip(1).skip(1) =~= seq!["--interface"@, interface]);
    assert(a.skip(1)[0] == interface && b.skip(1)[0] == disk);
    assert("--interface"@.len() == 11 && "--disk"@.len() == 6 && "--help"@.len() == 6
        && "-h"@.len() == 2 && "--list-network"@.len() == 14 && "--list-disks"@.len() == 12);
    assert("--disk"@[2] == 'd' && "--help"@[2] == 'h');
}

/// The words that ask for help and for the lists, and for nothing else.
pub proof fn actions_have_their_words(arg: Seq<char>)
    ensures
        action_of(arg) == Some(CommandText::Help) <==> arg == "--help"@ || arg == "-h"@,
        action_of(arg) == Some(CommandText::ListNetwork) <==> arg == "--list-network"@,
        action_of(arg) == Some(CommandText::ListDisks) <==> arg == "--list-disks"@,
        action_of(arg) matches Some(a) ==> !(a is Run),
{
    lemma_words_differ();
}

/// The words of the command line are different ones.
proof fn lemma_words_differ()
    ensures
        "--help"@ != "-h"@,
        "--help"@ != "--list-network"@,
        "--help"@ != "--list-disks"@,
        "--help"@ != "--interface"@,
        "--help"@ != "--disk"@,
        "-h"@ != "--list-network"@,
        "-h"@ != "--list-disks"@,
        "-h"@ != "--interface"@,
        "-h"@ != "--disk"@,
        "--list-network"@ != "--list-disks"@,
        "--list-network"@ != "--interface"@,
        "--list-network"@ != "--disk"@,
        "--list-disks"@ != "--interface"@,
        "--list-disks"@ != "--disk"@,
        "--interface"@ != "--disk"@,
{
    reveal_strlit("--help");
    reveal_strlit("-h");
    reveal_strlit("--list-network");
    reveal_strlit("--list-disks");
    reveal_strlit("--interface");
    reveal_strlit("--disk");
    assert("--interface"@.len() == 11 && "--disk"@.len() == 6 && "--help"@.len() == 6
        && "-h"@.len() == 2 && "--list-network"@.len() == 14 && "--list-disks"@.len() == 12);
    assert("--disk"@[2] == 'd' && "--help"@[2] == 'h');
}

/// With an action read, no window is asked for any more.
proof fn lemma_action_is_no_run(args: Seq<Seq<char>>, config: ConfigText, action: CommandText)
    requires
        !(action is Run),
    ensures
        reading(args, config, Some(action)) matches Ok(command) ==> !(command is Run),
    decreases args.len(),
{
    if args.len() > 0 {
        let rest = args.skip(1);
        if rest.len() > 0 {
            lemma_action_is_no_run(
                rest.skip(1),
                ConfigText { interface: Some(rest[0]), disk: config.disk },
                action,
            );
            lemma_action_is_no_run(
                rest.skip(1),
                ConfigText { interface: config.interface, disk: Some(rest[0]) },
                action,
            );
        }
    }
}

/// A window is asked for without arguments, or with one device or both, each
/// named once by a value that is not empty and does not start with a dash; the
/// devices are as they were named, and no other arguments ask for a window.
pub proof fn windows_are_asked_for_by_devices_alone(args: Seq<Seq<char>>, c: ConfigText)
    ensures
        reading(args, no_device(), None) == Ok::<CommandText, Seq<char>>(CommandText::Run(c)) <==> {
            ||| args.len() == 0 && c.interface is None && c.disk is None
            ||| args.len() == 2 && args[0] == "--interface"@ && args[1].len() > 0 && args[1][0]
                != '-' && c.interface == Some(args[1]) && c.disk is None
            ||| args.len() == 2 && args[0] == "--disk"@ && args[1].len() > 0 && args[1][0] != '-'
                && c.disk == Some(args[1]) && c.interface is None
            ||| args.len() == 4 && args[0] == "--interface"@ && args[2] == "--disk"@
                && args[1].len() > 0 && args[1][0] != '-' && args[3].len() > 0 && args[3][0] != '-'
                && c.interface == Some(args[1]) && c.disk == Some(args[3])
            ||| args.len() == 4 && args[0] == "--disk"@ && args[2] == "--interface"@
                && args[1].len() > 0 && args[1][0] != '-' && args[3].len() > 0 && args[3][0] != '-'
                && c.disk == Some(args[1]) && c.interface == Some(args[3])
        },
{
    lemma_words_differ();
    if args.len() > 0 {
        let rest = args.skip(1);
        if action_of(args[0]) is Some {
            actions_have_their_words(args[0]);
            lemma_action_is_no_run(rest, no_device(), action_of(args[0])->0);
        } else if has_value(rest) {
            let more = rest.skip(1);
            assert(rest[0] == args[1]);
            if args[0] == "--interface"@ {
                lemma_disk_left(more, args[1], c);
            } else if args[0] == "--disk"@ {
                lemma_interface_left(more, args[1], c);
            }
            assert(args.len() >= 3 ==> more[0] == args[2]);
            assert(args.len() >= 4 ==> more[1] == args[3]);
        }
    }
}

/// After an interface, a disk is left to be named.
proof fn lemma_disk_left(args: Seq<Seq<char>>, interface: Seq<char>, c: ConfigText)
    ensures
        reading(args, (ConfigText { interface: Some(interface), disk: None }), None) == Ok::<
            CommandText,
            Seq<char>,
        >(CommandText::Run(c)) <==> {
            ||| args.len() == 0 && c.interface == Some(interface) && c.disk is None
            ||| args.len() == 2 && args[0] == "--disk"@ && args[1].len() > 0 && args[1][0] != '-'
                && c.interface == Some(interface) && c.disk == Some(args[1])
        },
{
    lemma_words_differ();
    let config = ConfigText { interface: Some(interface), disk: None };
    if args.len() > 0 {
        let rest = args.skip(1);
        if action_of(args[0]) is Some {
            actions_have_their_words(args[0]);
            lemma_action_is_no_run(rest, config, action_of(args[0])->0);
        } else if args[0] == "--disk"@ && has_value(rest) {
            assert(rest[0] == args[1]);
            lemma_none_left(rest.skip(1), interface, args[1], c);
        }
    }
}

/// After a disk, an interface is left to be named.
proof fn lemma_interface_left(args: Seq<Seq<char>>, disk: Seq<char>, c: ConfigText)
    ensures
        reading(args, (ConfigText { interface: None, disk: Some(disk) }), None) == Ok::<
            CommandText,
            Seq<char>,
        >(CommandText::Run(c)) <==> {
            ||| args.len() == 0 && c.disk == Some(disk) && c.interface is None
            ||| args.len() == 2 && args[0] == "--interface"@ && args[1].len() > 0 && args[1][0]
                != '-' && c.disk == Some(disk) && c.interface == Some(args[1])
        },
{
    lemma_words_differ();
    let config = ConfigText { interface: None, disk: Some(disk) };
    if args.len() > 0 {
        let rest = args.skip(1);
        if action_of(args[0]) is Some {
            actions_have_their_words(args[0]);
            lemma_action_is_no_run(rest, config, action_of(args[0])->0);
        } else if args[0] == "--interface"@ && has_value(rest) {
            assert(rest[0] == args[1]);
            lemma_none_left(rest.skip(1), args[1], disk, c);
        }
    }
}

/// After both devices, nothing may follow.
proof fn lemma_none_left(
    args: Seq<Seq<char>>,
    interface: Seq<char>,
    disk: Seq<char>,
    c: ConfigText,
)
    ensures
        reading(args, (ConfigText { interface: Some(interface), disk: Some(disk) }), None) == Ok::<
            CommandText,
            Seq<char>,
        >(CommandText::Run(c)) <==> args.len() == 0 && c.interface == Some(interface) && c.disk
            == Some(disk),
{
    let config = ConfigText { interface: Some(interface), disk: Some(disk) };
    if args.len() > 0 {
        if action_of(args[0]) is Some {
            actions_have_their_words(args[0]);
            lemma_action_is_no_run(args.skip(1), config, action_of(args[0])->0);
        }
    }
}

/// An argument that is no word of the command line is told in the failure, if
/// what stands before it is read.
pub proof fn unknown_arguments_are_told(args: Seq<Seq<char>>)
    requires
        args.len() > 0,
        args[0] != "--help"@ && args[0] != "-h"@ && args[0] != "--list-network"@ && args[0]
            != "--list-disks"@ && args[0] != "--interface"@ && args[0] != "--disk"@,
    ensures
        reading(args, no_device(), None) == Err::<CommandText, Seq<char>>(
            "无法识别参数 "@ + args[0] + "。请运行 --help 查看可用选项。"@,
        ),
{
}

} // verus!

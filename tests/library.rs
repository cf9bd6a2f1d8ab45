use autorandr::arguments::Arguments;
use autorandr::config::Config;
use autorandr::fingerprint::{fingerprint, RawOutput};
use autorandr::manager::{command_result, ExitOutcome, Manager};
use autorandr::monitor::{Monitor, MonitorKind};
use autorandr::output::Output;
use autorandr::text::text_less;
use autorandr::topology::Topology;
use autorandr::{Error, Profile};

fn raw(name: &str, edid: Option<&[u8]>) -> RawOutput {
    RawOutput { name: name.to_string(), edid: edid.map(|b| b.to_vec()) }
}

fn args(pairs: &[(&str, &str)]) -> Arguments {
    Arguments::from_pairs(pairs.iter().map(|(k, v)| (k.to_string(), v.to_string())).collect())
}

fn slot(slot_name: &str, edid: Option<&str>, pairs: &[(&str, &str)]) -> (String, Output) {
    (
        slot_name.to_string(),
        Output {
            output_name: None,
            edid: edid.map(|e| e.to_string()),
            xrandr_args: Some(args(pairs)),
        },
    )
}

fn profile(name: &str, slots: Vec<(String, Output)>) -> Profile {
    Profile::new(slots, Some(name.to_string()), None)
}

fn strings(v: &[&str]) -> Vec<String> {
    v.iter().map(|s| s.to_string()).collect()
}

fn names(outputs: &Vec<Output>) -> Vec<String> {
    outputs.iter().map(|o| o.output_name.clone().unwrap()).collect()
}

fn edids(outputs: &Vec<Output>) -> Vec<String> {
    outputs.iter().map(|o| o.edid.clone().unwrap()).collect()
}

fn manager(profiles: Vec<Profile>, active: Vec<RawOutput>, all: Vec<RawOutput>) -> Manager {
    Manager::from(Config::new(profiles)).detect(&active, &all)
}

#[test]
fn convert_xrandr_output_to_autorandr_output() {
    let edid: Vec<u8> = Vec::from([0]);
    let xo = RawOutput { name: "MEOW-1".into(), edid: Some(edid) };
    let expected = Output {
        output_name: Some(xo.name.clone()),
        edid: Some("00".into()),
        xrandr_args: Some(Arguments::new()),
    };
    let actual = Output::from_raw(&xo);
    assert_eq!(expected, actual);
}

#[test]
fn fingerprint_is_lowercase_hex_of_edid() {
    assert_eq!(fingerprint(&Some(vec![0xde, 0xad, 0xbe, 0xef])), Some("deadbeef".to_string()));
    assert_eq!(fingerprint(&Some(vec![0x0f, 0xa0])), Some("0fa0".to_string()));
    assert_eq!(fingerprint(&Some(vec![])), Some(String::new()));
    assert_eq!(fingerprint(&None), None);
}

#[test]
fn output_args_flatten_in_order() {
    let o = Output {
        output_name: Some("DP-1".into()),
        edid: None,
        xrandr_args: Some(args(&[("--pos", "0x0"), ("--rotate", "left")])),
    };
    assert_eq!(o.get_args(), strings(&["--pos", "0x0", "--rotate", "left"]));
    let reversed = Output {
        output_name: None,
        edid: None,
        xrandr_args: Some(args(&[("--rotate", "left"), ("--pos", "0x0")])),
    };
    assert_eq!(reversed.get_args(), strings(&["--pos", "0x0", "--rotate", "left"]));
    let bare = Output { output_name: None, edid: None, xrandr_args: None };
    assert!(bare.get_args().is_empty());
}

#[test]
fn arguments_keep_one_value_per_flag_in_flag_order() {
    let mut a = Arguments::new();
    a.insert("--rotate".into(), "left".into());
    a.insert("--mode".into(), "800x600".into());
    a.insert("--auto".into(), "".into());
    a.insert("--mode".into(), "1920x1080".into());
    assert_eq!(a.flatten(), strings(&["--auto", "", "--mode", "1920x1080", "--rotate", "left"]));
    let b = args(&[("--pos", "0x0"), ("--pos", "1920x0"), ("--dpi", "96")]);
    assert_eq!(b.flatten(), strings(&["--dpi", "96", "--pos", "1920x0"]));
    assert!(Arguments::new().flatten().is_empty());
}

#[test]
fn monitor_from_raw_and_args() {
    let m = Monitor::from_raw(&raw("eDP-1", Some(&[0x12, 0x34])));
    assert_eq!(m.kind, MonitorKind::Unknown);
    assert_eq!(m.output_name, Some("eDP-1".to_string()));
    assert_eq!(m.edid, Some("1234".to_string()));
    assert!(m.get_args().is_empty());
    let placed = Monitor {
        kind: MonitorKind::Laptop,
        output_name: None,
        edid: None,
        xrandr_args: args(&[("--primary", ""), ("--mode", "1920x1080")]),
    };
    assert_eq!(placed.get_args(), strings(&["--mode", "1920x1080", "--primary", ""]));
    let moved = Monitor {
        kind: MonitorKind::Laptop,
        output_name: None,
        edid: None,
        xrandr_args: args(&[("--pos", "0x0"), ("--mode", "1920x1080")]),
    };
    assert_eq!(moved.get_args(), strings(&["--mode", "1920x1080", "--pos", "0x0"]));
}

#[test]
fn topology_partitions_outputs() {
    let active = vec![raw("eDP-1", Some(&[0x01]))];
    let all = vec![
        raw("eDP-1", Some(&[0x01])),
        raw("HDMI-1", Some(&[0x02])),
        raw("DP-1", None),
        raw("DP-2", None),
    ];
    let t = Topology::build(&active, &all);
    assert_eq!(names(t.active()), strings(&["eDP-1"]));
    assert_eq!(edids(t.active()), strings(&["01"]));
    assert_eq!(names(t.connected()), strings(&["HDMI-1"]));
    assert_eq!(edids(t.connected()), strings(&["02"]));
    assert_eq!(names(t.disconnected()), strings(&["DP-1", "DP-2"]));
    for a in edids(t.active()) {
        assert!(!edids(t.connected()).contains(&a));
    }
}

#[test]
fn topology_active_output_is_not_duplicated_into_connected() {
    let active = vec![raw("DP-1", Some(&[0xaa])), raw("DP-2", Some(&[0xbb]))];
    let all = vec![raw("DP-1", Some(&[0xaa])), raw("DP-2", Some(&[0xbb]))];
    let t = Topology::build(&active, &all);
    assert_eq!(edids(t.active()), strings(&["aa", "bb"]));
    assert!(t.connected().is_empty());
    assert!(t.disconnected().is_empty());
}

#[test]
fn topology_same_fingerprint_keeps_latest_output() {
    let active = vec![];
    let all = vec![raw("DP-1", Some(&[0xaa])), raw("DP-2", Some(&[0xaa]))];
    let t = Topology::build(&active, &all);
    assert_eq!(names(t.connected()), strings(&["DP-2"]));
    assert_eq!(edids(t.connected()), strings(&["aa"]));
}

#[test]
fn topology_drops_active_outputs_without_fingerprint() {
    let active = vec![raw("VIRTUAL-1", None)];
    let all = vec![raw("VIRTUAL-1", None)];
    let t = Topology::build(&active, &all);
    assert!(t.active().is_empty());
    assert_eq!(names(t.disconnected()), strings(&["VIRTUAL-1"]));
}

#[test]
fn detection_is_repeatable() {
    let active = vec![raw("eDP-1", Some(&[0x01]))];
    let all = vec![raw("eDP-1", Some(&[0x01])), raw("HDMI-1", Some(&[0x02])), raw("DP-1", None)];
    let first = Manager::from(Config::new(vec![])).detect(&active, &all);
    let second = first.detect(&active, &all);
    let again = Topology::build(&active, &all);
    assert_eq!(second.topology().active(), again.active());
    assert_eq!(second.topology().connected(), again.connected());
    assert_eq!(second.topology().disconnected(), again.disconnected());
}

#[test]
fn required_fingerprints_are_the_slot_fingerprints() {
    let p = profile(
        "desk",
        vec![
            slot("left", Some("aa"), &[]),
            slot("right", Some("bb"), &[]),
            slot("spare", Some("aa"), &[]),
            slot("any", None, &[]),
        ],
    );
    let mut req = p.required_fingerprints().clone();
    req.sort();
    assert_eq!(req, strings(&["aa", "bb"]));
    let q = profile(
        "desk",
        vec![slot("any", None, &[]), slot("right", Some("bb"), &[]), slot("left", Some("aa"), &[])],
    );
    let mut req_q = q.required_fingerprints().clone();
    req_q.sort();
    assert_eq!(req, req_q);
}

#[test]
fn availability_is_monotonic() {
    let p = profile("desk", vec![slot("left", Some("aa"), &[]), slot("right", Some("bb"), &[])]);
    assert!(!p.is_available(&strings(&["aa"])));
    assert!(p.is_available(&strings(&["aa", "bb"])));
    assert!(p.is_available(&strings(&["cc", "bb", "aa"])));
    let empty = profile("fallback", vec![slot("any", None, &[])]);
    assert!(empty.is_available(&vec![]));
}

#[test]
fn profile_identifier_comes_from_name_or_stem() {
    let declared = Profile::new(vec![], Some("office".into()), Some("file".into()));
    assert_eq!(declared.name(), "office");
    let stem = Profile::new(vec![], None, Some("file".into()));
    assert_eq!(stem.name(), "file");
    let neither = Profile::new(vec![], None, None);
    assert_eq!(neither.name(), "");
}

#[test]
fn text_order_is_lexicographic() {
    let s = |x: &str| x.to_string();
    assert!(text_less(&s("a"), &s("b")));
    assert!(text_less(&s("ab"), &s("b")));
    assert!(text_less(&s(""), &s("a")));
    assert!(text_less(&s("a"), &s("ab")));
    assert!(!text_less(&s("b"), &s("ab")));
    assert!(!text_less(&s("same"), &s("same")));
    assert!(text_less(&s("Z"), &s("a")));
    assert!(text_less(&s("z"), &s("é")));
}

#[test]
fn config_orders_profiles_by_identifier() {
    let c = Config::new(vec![profile("work", vec![]), profile("home", vec![]), profile("laptop", vec![])]);
    let order: Vec<String> = c.profiles().iter().map(|p| p.name().to_string()).collect();
    assert_eq!(order, strings(&["home", "laptop", "work"]));
}

#[test]
fn scenario_single_active_output_applies_profile() {
    let m = manager(
        vec![profile("home", vec![slot("main", Some("ff00"), &[("--rotate", "normal")])])],
        vec![raw("DP-1", Some(&[0xff, 0x00]))],
        vec![raw("DP-1", Some(&[0xff, 0x00]))],
    );
    assert_eq!(m.reconcile(), Ok(strings(&["--output", "DP-1", "--rotate", "normal"])));
}

#[test]
fn scenario_disconnected_output_only_switched_off() {
    let m = manager(
        vec![profile("home", vec![slot("main", Some("ff00"), &[("--auto", "")])])],
        vec![],
        vec![raw("HDMI-2", None)],
    );
    assert_eq!(m.reconcile(), Ok(strings(&["--output", "HDMI-2", "--off"])));
}

#[test]
fn scenario_first_eligible_profile_wins() {
    let p1 = profile("P1", vec![slot("only", Some("aa"), &[("--mode", "1920x1080")])]);
    let p2 = profile(
        "P2",
        vec![slot("left", Some("aa"), &[("--left-of", "DP-2")]), slot("right", Some("bb"), &[("--auto", "")])],
    );
    let m = manager(
        vec![p2, p1],
        vec![raw("DP-1", Some(&[0xaa]))],
        vec![raw("DP-1", Some(&[0xaa])), raw("DP-2", Some(&[0xbb]))],
    );
    assert_eq!(m.reconcile(), Ok(strings(&["--output", "DP-1", "--mode", "1920x1080"])));
}

#[test]
fn scenario_mirror_with_two_active_outputs_fails() {
    let m = manager(
        vec![profile("mirror", vec![slot("all-monitors", None, &[("--mode", "1920x1080")])])],
        vec![raw("DP-1", Some(&[0x01])), raw("DP-2", Some(&[0x02]))],
        vec![raw("DP-1", Some(&[0x01])), raw("DP-2", Some(&[0x02]))],
    );
    assert_eq!(m.mirror(), Err(Error::MirrorModeTooManyActiveMonitors));
}

#[test]
fn reconcile_applies_every_slot_and_switches_off_first() {
    let m = manager(
        vec![profile(
            "desk",
            vec![
                slot("left", Some("0a"), &[("--pos", "0x0")]),
                slot("right", Some("0b"), &[("--pos", "1920x0"), ("--primary", "")]),
            ],
        )],
        vec![raw("eDP-1", Some(&[0x0a]))],
        vec![raw("eDP-1", Some(&[0x0a])), raw("DP-1", None), raw("HDMI-1", Some(&[0x0b]))],
    );
    let expected = strings(&[
        "--output", "DP-1", "--off", "--output", "eDP-1", "--pos", "0x0", "--output", "HDMI-1", "--pos",
        "1920x0", "--primary", "",
    ]);
    assert_eq!(m.reconcile(), Ok(expected));
}

#[test]
fn reconcile_is_deterministic() {
    let m = manager(
        vec![
            profile("b", vec![slot("x", Some("01"), &[("--auto", "")])]),
            profile("a", vec![slot("y", Some("02"), &[("--auto", "")])]),
        ],
        vec![raw("DP-1", Some(&[0x01]))],
        vec![raw("DP-1", Some(&[0x01])), raw("DP-2", Some(&[0x02]))],
    );
    let first = m.reconcile();
    assert_eq!(first, m.reconcile());
    assert_eq!(first, Ok(strings(&["--output", "DP-2", "--auto", ""])));
}

#[test]
fn reconcile_with_empty_profile_always_matches() {
    let m = manager(vec![profile("zzz", vec![])], vec![], vec![raw("DP-1", None)]);
    assert_eq!(m.reconcile(), Ok(strings(&["--output", "DP-1", "--off"])));
}

#[test]
fn reconcile_rejects_slot_without_fingerprint() {
    let m = manager(
        vec![profile("loose", vec![slot("any", None, &[("--auto", "")])])],
        vec![raw("DP-1", Some(&[0x01]))],
        vec![raw("DP-1", Some(&[0x01]))],
    );
    assert_eq!(m.reconcile(), Err(Error::UnresolvedProfileSlot("loose".to_string())));
}

#[test]
fn reconcile_never_reports_inconsistent_topology() {
    let m = manager(
        vec![profile("pair", vec![slot("a", Some("01"), &[]), slot("b", Some("02"), &[])])],
        vec![raw("DP-1", Some(&[0x01])), raw("DP-2", Some(&[0x02]))],
        vec![raw("DP-1", Some(&[0x01])), raw("DP-2", Some(&[0x02])), raw("DP-3", Some(&[0x02]))],
    );
    assert_eq!(m.reconcile(), Ok(strings(&["--output", "DP-1", "--output", "DP-2"])));
}

#[test]
fn mirror_copies_slot_to_every_output() {
    let m = manager(
        vec![profile("mirror", vec![slot("all-monitors", None, &[("--mode", "1920x1080")])])],
        vec![raw("eDP-1", Some(&[0x01]))],
        vec![raw("eDP-1", Some(&[0x01])), raw("HDMI-1", Some(&[0x02])), raw("DP-3", None)],
    );
    let expected = strings(&[
        "--output", "DP-3", "--off", "--output", "eDP-1", "--mode", "1920x1080", "--output", "HDMI-1",
        "--mode", "1920x1080",
    ]);
    assert_eq!(m.mirror(), Ok(expected));
}

#[test]
fn mirror_without_profile_fails() {
    let m = manager(vec![profile("home", vec![])], vec![raw("eDP-1", Some(&[0x01]))], vec![]);
    assert_eq!(m.mirror(), Err(Error::MirrorModeMissingProfile));
    let no_slot = manager(
        vec![profile("mirror", vec![slot("other", None, &[])])],
        vec![raw("eDP-1", Some(&[0x01]))],
        vec![],
    );
    assert_eq!(no_slot.mirror(), Err(Error::MirrorModeMissingProfile));
}

#[test]
fn mirror_without_active_output_fails() {
    let m = manager(
        vec![profile("mirror", vec![slot("all-monitors", None, &[])])],
        vec![],
        vec![raw("HDMI-1", Some(&[0x02]))],
    );
    assert_eq!(m.mirror(), Err(Error::NoActiveMonitors));
}

#[test]
fn command_outcomes_are_classified() {
    assert_eq!(command_result("xrandr".into(), ExitOutcome::Exited(0)), Ok(()));
    assert_eq!(
        command_result("xrandr".into(), ExitOutcome::Exited(3)),
        Err(Error::SubprocessFailed("xrandr".into(), 3))
    );
    assert_eq!(
        command_result("xrandr".into(), ExitOutcome::Signaled(9)),
        Err(Error::SubprocessKilledBySignal("xrandr".into(), 9))
    );
    assert_eq!(
        command_result("xrandr".into(), ExitOutcome::Other),
        Err(Error::SubprocessUnknownFailure("xrandr".into()))
    );
}

#[test]
fn mirror_uses_first_mirror_profile_with_the_slot() {
    let m = manager(
        vec![
            profile("mirror", vec![slot("other", None, &[])]),
            profile("mirror", vec![slot("all-monitors", None, &[("--auto", "")])]),
        ],
        vec![raw("DP-1", Some(&[0x01])), raw("DP-2", Some(&[0x02]))],
        vec![raw("DP-1", Some(&[0x01])), raw("DP-2", Some(&[0x02]))],
    );
    assert_eq!(m.mirror(), Err(Error::MirrorModeTooManyActiveMonitors));
    let single = manager(
        vec![
            profile("mirror", vec![slot("other", None, &[])]),
            profile("mirror", vec![slot("all-monitors", None, &[("--auto", "")])]),
        ],
        vec![raw("DP-1", Some(&[0x01]))],
        vec![raw("DP-1", Some(&[0x01]))],
    );
    assert_eq!(single.mirror(), Ok(strings(&["--output", "DP-1", "--auto", ""])));
}

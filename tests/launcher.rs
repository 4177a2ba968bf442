use open_urls_together::launcher::{open_command, Action, Launcher, ShellCommand};

fn strings(items: &[&str]) -> Vec<String> {
    items.iter().map(|s| s.to_string()).collect()
}

fn spawn(url_arg: &str) -> Action {
    Action::Spawn(ShellCommand {
        program: "cmd".to_string(),
        args: strings(&["/c", "start", url_arg]),
    })
}

#[test]
fn open_command_runs_start_through_cmd() {
    let c = open_command("https://b.com&c=1");
    assert_eq!(c.program, "cmd");
    assert_eq!(c.args, strings(&["/c", "start", "https://b.com^&c=1"]));
}

#[test]
fn two_urls_end_to_end() {
    let launcher = Launcher::new(strings(&["https://a.com", "https://b.com&c=1"]), 300);
    let plan = launcher.plan();
    assert_eq!(
        plan,
        vec![
            spawn("https://a.com"),
            Action::Sleep(300),
            spawn("https://b.com^&c=1"),
            Action::Sleep(300),
        ]
    );
}

#[test]
fn empty_list_gives_no_actions() {
    let launcher = Launcher::new(Vec::new(), 300);
    assert!(launcher.plan().is_empty());
}

#[test]
fn each_url_once_in_list_order() {
    let urls = strings(&["https://c.com", "https://a.com", "https://c.com", "https://b.com^x"]);
    let plan = Launcher::new(urls.clone(), 50).plan();
    assert_eq!(plan.len(), 2 * urls.len());
    let spawned: Vec<String> = plan
        .iter()
        .filter_map(|a| match a {
            Action::Spawn(c) => Some(c.args[2].clone()),
            Action::Sleep(_) => None,
        })
        .collect();
    assert_eq!(
        spawned,
        strings(&["https://c.com", "https://a.com", "https://c.com", "https://b.com^^x"])
    );
}

#[test]
fn one_fixed_pause_between_launches() {
    let urls = strings(&["u1", "u2", "u3"]);
    let plan = Launcher::new(urls, 150).plan();
    for (j, a) in plan.iter().enumerate() {
        if j % 2 == 0 {
            assert!(matches!(a, Action::Spawn(_)));
        } else {
            assert_eq!(*a, Action::Sleep(150));
        }
    }
}

#[test]
fn zero_and_largest_delay() {
    let plan = Launcher::new(strings(&["u"]), 0).plan();
    assert_eq!(plan, vec![spawn("u"), Action::Sleep(0)]);
    let plan = Launcher::new(strings(&["u"]), u32::MAX).plan();
    assert_eq!(plan, vec![spawn("u"), Action::Sleep(u32::MAX)]);
}

#[test]
fn configuration_is_kept() {
    let launcher = Launcher::new(strings(&["https://24.hu", "https://www.ft.com"]), 300);
    assert_eq!(*launcher.urls(), strings(&["https://24.hu", "https://www.ft.com"]));
    assert_eq!(launcher.delay_ms(), 300);
}

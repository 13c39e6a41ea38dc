use playbook_cli::commands::run::{
    call_run, run_command, run_command_verbose, Action, Event, Invocation, Phase, Run, Stream,
};
use playbook_cli::directory::{DirEntry, Directory, Source};
use playbook_cli::error::PlaybookError;
use playbook_cli::selection::{EnvOverride, Selection};
use playbook_cli::utilities::args::arg_parse_env;

fn directory(names: &[&str]) -> Directory {
    let entries = names
        .iter()
        .map(|n| DirEntry { name: n.to_string(), source: Source::Unavailable })
        .collect();
    Directory::listing("playbooks/".to_string(), entries)
}

fn select(items: &[&str]) -> Selection {
    let dir = directory(&["setup.yaml", "deploy.yaml", "cleanup.yaml"]);
    let tokens: Vec<String> = items.iter().map(|t| t.to_string()).collect();
    arg_parse_env(&tokens, &dir).unwrap()
}

fn strings(items: &[&str]) -> Vec<String> {
    items.iter().map(|t| t.to_string()).collect()
}

fn spawn(args: &[&str], capture: bool) -> Action {
    Action::Spawn(Invocation {
        program: "ansible-playbook".to_string(),
        args: strings(args),
        capture,
    })
}

fn begin(items: &[&str], verbose: bool) -> Run {
    call_run(&select(items), &verbose, "playbooks/", "inventory.yaml")
}

#[test]
fn run_records_a_failed_playbook_and_goes_on() {
    let mut run = begin(&["cleanup.yaml", "deploy.yaml"], false);
    assert_eq!(run.action(), spawn(&["-i", "inventory.yaml", "playbooks/cleanup.yaml"], false));
    assert_eq!(run.step(Event::Launched), Action::Wait);
    assert_eq!(
        run.step(Event::Exited(Some(0))),
        spawn(&["-i", "inventory.yaml", "playbooks/deploy.yaml"], false)
    );
    assert_eq!(run.step(Event::Launched), Action::Wait);
    assert_eq!(
        run.step(Event::Exited(Some(1))),
        Action::Finish("0: cleanup.yaml - Success\n1: deploy.yaml - Failed\n".to_string())
    );
    assert_eq!(run.results(), "0: cleanup.yaml - Success\n1: deploy.yaml - Failed\n");
}

#[test]
fn run_of_nothing_finishes_at_once() {
    let run = begin(&[], false);
    assert_eq!(run.action(), Action::Finish("".to_string()));
    let run = begin(&[], true);
    assert_eq!(run.action(), Action::Finish("".to_string()));
}

#[test]
fn run_goes_in_the_order_of_the_ordinals() {
    let mut run = begin(&["setup.yaml", "0"], false);
    assert_eq!(run.action(), spawn(&["-i", "inventory.yaml", "playbooks/cleanup.yaml"], false));
    run.observe(Event::Launched);
    run.observe(Event::Exited(Some(0)));
    assert_eq!(run.action(), spawn(&["-i", "inventory.yaml", "playbooks/setup.yaml"], false));
    run.observe(Event::Launched);
    run.observe(Event::Exited(Some(0)));
    assert_eq!(
        run.action(),
        Action::Finish("0: cleanup.yaml - Success\n2: setup.yaml - Success\n".to_string())
    );
}

#[test]
fn engine_gets_one_argument_for_each_override() {
    let run = begin(&["deploy.yaml,ENV=prod,REGION=us"], false);
    assert_eq!(
        run.action(),
        spawn(
            &["-i", "inventory.yaml", "playbooks/deploy.yaml", "-e ENV=prod", "-e REGION=us"],
            false
        )
    );
    let run = call_run(&select(&["1,A=b c,D="]), &true, "books", "hosts/inv.yaml");
    assert_eq!(
        run.action(),
        spawn(&["-i", "hosts/inv.yaml", "books/deploy.yaml", "-e A=b c", "-e D="], true)
    );
}

#[test]
fn verbose_run_drains_stdout_then_stderr_then_waits() {
    let mut run = begin(&["0", "1"], true);
    assert_eq!(run.action(), spawn(&["-i", "inventory.yaml", "playbooks/cleanup.yaml"], true));
    assert_eq!(run.step(Event::Launched), Action::Capture);
    assert_eq!(run.step(Event::Captured), Action::Drain(Stream::Stdout));
    assert_eq!(run.step(Event::Drained), Action::Drain(Stream::Stderr));
    assert_eq!(run.step(Event::Drained), Action::Wait);
    assert_eq!(
        run.step(Event::Exited(Some(2))),
        spawn(&["-i", "inventory.yaml", "playbooks/deploy.yaml"], true)
    );
    assert_eq!(run.step(Event::Launched), Action::Capture);
    assert_eq!(run.step(Event::Captured), Action::Drain(Stream::Stdout));
    assert_eq!(run.step(Event::Drained), Action::Drain(Stream::Stderr));
    assert_eq!(run.step(Event::Drained), Action::Wait);
    assert_eq!(
        run.step(Event::Exited(Some(0))),
        Action::Finish("0: cleanup.yaml - Failed\n1: deploy.yaml - Success\n".to_string())
    );
}

#[test]
fn launch_failure_aborts_the_run() {
    let mut run = begin(&["0", "1"], false);
    run.observe(Event::Launched);
    run.observe(Event::Exited(Some(0)));
    let abort = Action::Abort(PlaybookError::ExecutionLaunchFailure("ansible-playbook".to_string()));
    assert_eq!(run.step(Event::LaunchFailed), abort);
    assert_eq!(run.step(Event::Launched), abort);
    assert_eq!(run.step(Event::Exited(Some(0))), abort);
    assert_eq!(run.results(), "0: cleanup.yaml - Success\n");
}

#[test]
fn exit_without_a_code_or_with_another_code_is_a_failure() {
    let mut run = begin(&["0-2"], false);
    run.observe(Event::Launched);
    run.observe(Event::Exited(None));
    run.observe(Event::Launched);
    run.observe(Event::Exited(Some(-1)));
    run.observe(Event::Launched);
    assert_eq!(
        run.step(Event::Exited(Some(255))),
        Action::Finish(
            "0: cleanup.yaml - Failed\n1: deploy.yaml - Failed\n2: setup.yaml - Failed\n".to_string()
        )
    );
}

#[test]
fn event_that_is_not_awaited_changes_nothing() {
    let mut run = begin(&["0"], true);
    let first = run.action();
    assert_eq!(run.step(Event::Drained), first);
    assert_eq!(run.step(Event::Captured), first);
    assert_eq!(run.step(Event::Exited(Some(0))), first);
    assert_eq!(run.step(Event::Launched), Action::Capture);
    assert_eq!(run.step(Event::Launched), Action::Capture);
    assert_eq!(run.step(Event::Drained), Action::Capture);
    assert_eq!(run.step(Event::Exited(Some(0))), Action::Capture);
    assert_eq!(run.step(Event::Captured), Action::Drain(Stream::Stdout));
    assert_eq!(run.step(Event::Captured), Action::Drain(Stream::Stdout));
    assert_eq!(run.step(Event::Launched), Action::Drain(Stream::Stdout));
    assert_eq!(run.step(Event::LaunchFailed), Action::Drain(Stream::Stdout));
    assert_eq!(run.step(Event::Exited(Some(0))), Action::Drain(Stream::Stdout));
    assert_eq!(run.step(Event::Drained), Action::Drain(Stream::Stderr));
    assert_eq!(run.step(Event::Drained), Action::Wait);
    assert_eq!(run.step(Event::Drained), Action::Wait);
    let end = Action::Finish("0: cleanup.yaml - Success\n".to_string());
    assert_eq!(run.step(Event::Exited(Some(0))), end);
    assert_eq!(run.step(Event::Launched), end);
    assert_eq!(run.step(Event::LaunchFailed), end);
    assert_eq!(run.step(Event::Exited(Some(1))), end);
}

#[test]
fn run_command_appends_the_overrides() {
    let mut envs = EnvOverride::new();
    envs.insert("ENV".to_string(), "prod".to_string());
    envs.insert("REGION".to_string(), "us".to_string());
    let quiet = run_command("engine".to_string(), strings(&["-i", "inv", "p/a.yaml"]), &envs);
    assert_eq!(
        quiet,
        Invocation {
            program: "engine".to_string(),
            args: strings(&["-i", "inv", "p/a.yaml", "-e ENV=prod", "-e REGION=us"]),
            capture: false,
        }
    );
    let loud = run_command_verbose("engine".to_string(), Vec::new(), &envs);
    assert_eq!(
        loud,
        Invocation {
            program: "engine".to_string(),
            args: strings(&["-e ENV=prod", "-e REGION=us"]),
            capture: true,
        }
    );
    let bare = run_command("engine".to_string(), strings(&["x"]), &EnvOverride::new());
    assert_eq!(bare.args, strings(&["x"]));
}

#[test]
fn quiet_run_never_streams() {
    let mut run = begin(&["0"], false);
    assert_eq!(run.step(Event::Launched), Action::Wait);
    assert_eq!(run.step(Event::Captured), Action::Wait);
    assert_eq!(run.step(Event::Drained), Action::Wait);
    assert_eq!(run.phase_of(0), Phase::Spawned);
    assert_eq!(
        run.step(Event::Exited(Some(0))),
        Action::Finish("0: cleanup.yaml - Success\n".to_string())
    );
}

#[test]
fn each_playbook_goes_through_its_phases() {
    let mut run = begin(&["0", "1"], true);
    assert_eq!(run.phase_of(0), Phase::Pending);
    assert_eq!(run.phase_of(1), Phase::Pending);
    run.observe(Event::Launched);
    assert_eq!(run.phase_of(0), Phase::Spawned);
    run.observe(Event::Captured);
    assert_eq!(run.phase_of(0), Phase::Streaming(Stream::Stdout));
    run.observe(Event::Drained);
    assert_eq!(run.phase_of(0), Phase::Streaming(Stream::Stderr));
    run.observe(Event::Drained);
    assert_eq!(run.phase_of(0), Phase::Drained);
    assert_eq!(run.phase_of(1), Phase::Pending);
    run.observe(Event::Exited(Some(3)));
    assert_eq!(run.phase_of(0), Phase::Exited(false));
    assert_eq!(run.phase_of(1), Phase::Pending);
    run.observe(Event::Launched);
    assert_eq!(run.phase_of(0), Phase::Exited(false));
    assert_eq!(run.phase_of(1), Phase::Spawned);
    run.observe(Event::Captured);
    run.observe(Event::Drained);
    run.observe(Event::Drained);
    run.observe(Event::Exited(Some(0)));
    assert_eq!(run.phase_of(1), Phase::Exited(true));
    assert_eq!(run.phase_of(2), Phase::Pending);
    assert_eq!(run.phase_of(7), Phase::Pending);
}

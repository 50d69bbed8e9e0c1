use rsi::job::{estimate_args, field_list, job_selector, job_title, parse_script_text};

#[test]
fn can_parse_script_correctly() {
    let content = r#"
              #SBATCH --job-name=hello
              #SBATCH --nodes=1
              #SBATCH --ntasks-per-node=1
              #SBATCH --time=00:01:00
              #SBATCH -c 1
              # This is just a comment and should not be parsed.
              # #SBATCH This is a red herring too!
              #SBATCH --partition=debug

              srun hostname
              "#;
    let args = parse_script_text(content);

    assert_eq!(args[0], "--job-name=hello");
    assert_eq!(args[1], "--nodes=1");
    assert_eq!(args[2], "--ntasks-per-node=1");
    assert_eq!(args[3], "--time=00:01:00");
    assert_eq!(args[4..=5], ["-c", "1"]);
    assert_eq!(args[6], "--partition=debug");
}

#[test]
fn script_without_directives_gives_no_arguments() {
    let args = parse_script_text("#!/bin/bash\nsrun hostname\n# SBATCH --nodes=2\n");
    assert!(args.is_empty());
}

#[test]
fn estimate_args_append_dry_run() {
    let args = estimate_args("#SBATCH --nodes=2\n");
    assert_eq!(args, vec!["--nodes=2", "--test-only", "--wrap", "\"hostname\""]);
}

#[test]
fn selector_joins_job_and_step() {
    assert_eq!(job_selector(123, "batch"), "123.batch");
    assert_eq!(job_selector(0, "0"), "0.0");
    assert_eq!(job_selector(4294967295, "1"), "4294967295.1");
}

#[test]
fn title_names_job_and_step() {
    assert_eq!(job_title(42, "0"), "JOBID=42 STEP=0");
}

#[test]
fn field_list_joins_words_with_commas() {
    assert_eq!(field_list("Account   AdminComment\nAllocCPUS  \n  JobID\n"), "Account,AdminComment,AllocCPUS,JobID");
    assert_eq!(field_list(""), "");
    assert_eq!(field_list("  \n "), "");
}

#[test]
fn script_words_split_at_unicode_whitespace() {
    let args = parse_script_text("#SBATCH\u{3000}x\n\u{a0}#SBATCH a\u{3000}b\n#SBATCH\n");
    assert_eq!(args, vec!["x", "a", "b"]);
}

#[test]
fn field_list_splits_at_unicode_whitespace() {
    assert_eq!(field_list("JobID\u{2003}State\u{85}Elapsed"), "JobID,State,Elapsed");
}

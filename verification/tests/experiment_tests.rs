use ephmem::experiment::{
    authorized_ssh_keys, balloon_wait_time_ms, exit_status_answer, gen_sed_replace_cmd, guest_size_from_output,
    shrink_target_kb, vm_ip_from_output, BALLOON_VM_SIZE_KB,
};

#[test]
fn sed_script_pairs_replacements() {
    assert_eq!(gen_sed_replace_cmd(&["\\[QEMU\\]", "\\[DISK\\]"], &["/usr/bin/qemu", "/imgs/a.qcow2"]),
        "s|\\[QEMU\\]|/usr/bin/qemu|g;s|\\[DISK\\]|/imgs/a.qcow2|g;");
    assert_eq!(gen_sed_replace_cmd(&["a", "b", "c"], &["1"]), "s|a|1|g;");
    assert_eq!(gen_sed_replace_cmd(&[], &["1"]), "");
}

#[test]
fn balloon_wait_scales_with_remaining_shrink() {
    let target = shrink_target_kb(8);
    assert_eq!(target, 8 * 1024 * 1024);
    // nothing shrunk yet: the longest wait
    assert_eq!(balloon_wait_time_ms(BALLOON_VM_SIZE_KB, target), 5000);
    // halfway
    let half = target + (BALLOON_VM_SIZE_KB - target) / 2;
    assert_eq!(balloon_wait_time_ms(half, target), 2500);
    // nearly done: the shortest wait
    assert_eq!(balloon_wait_time_ms(target + 1, target), 500);
    assert_eq!(balloon_wait_time_ms(target, target), 500);
}

#[test]
fn vm_ip_is_trimmed_output() {
    assert_eq!(vm_ip_from_output("192.168.122.17\n"), Some("192.168.122.17".to_string()));
    assert_eq!(vm_ip_from_output("  10.0.0.2 \t\n"), Some("10.0.0.2".to_string()));
    assert_eq!(vm_ip_from_output("\n"), None);
    assert_eq!(vm_ip_from_output(""), None);
}

#[test]
fn ssh_keys_are_selected_and_joined() {
    let text = "ssh-rsa AAAA user@a\n# comment\n  ssh-ed25519 BBBB user@b\r\n\nnot-a-key\necdsa-sha2 CCCC\nssh-ed25519 DDDD last";
    let expected: String = text
        .lines()
        .filter(|line| line.trim().starts_with("ssh"))
        .collect::<Vec<&str>>()
        .join("\\n      - ");
    assert_eq!(authorized_ssh_keys(text), expected);
    assert_eq!(
        authorized_ssh_keys(text),
        "ssh-rsa AAAA user@a\\n      -   ssh-ed25519 BBBB user@b\\n      - ssh-ed25519 DDDD last"
    );
    assert_eq!(authorized_ssh_keys(""), "");
    assert_eq!(authorized_ssh_keys("no keys here\n"), "");
    assert_eq!(authorized_ssh_keys("ssh-a\n"), "ssh-a");
    assert_eq!(authorized_ssh_keys("ssh-a\r"), "ssh-a\r");
    for t in ["\n\n", "ssh\nssh\n", "\u{2003}ssh x", "x\r\nssh y\r\n", "sshssh\nss\nsh"] {
        let e: String = t.lines().filter(|l| l.trim().starts_with("ssh")).collect::<Vec<&str>>().join("\\n      - ");
        assert_eq!(authorized_ssh_keys(t), e, "{:?}", t);
    }
}

#[test]
fn remote_test_answers() {
    assert_eq!(exit_status_answer(true, None), Some(true));
    assert_eq!(exit_status_answer(false, Some(1)), Some(false));
    assert_eq!(exit_status_answer(false, Some(2)), None);
    assert_eq!(exit_status_answer(false, None), None);
}

#[test]
fn guest_size_is_trimmed_and_parsed() {
    assert_eq!(guest_size_from_output("8388608\n"), Some(8388608));
    assert_eq!(guest_size_from_output("  +42 \t"), Some(42));
    assert_eq!(guest_size_from_output(""), None);
    assert_eq!(guest_size_from_output("12a\n"), None);
    assert_eq!(guest_size_from_output("-1"), None);
    for t in ["0", " 18446744073709551615\n", "18446744073709551616", "+", "1 2", "\u{2003}7\u{2003}", "007"] {
        assert_eq!(guest_size_from_output(t), t.trim().parse::<usize>().ok(), "{:?}", t);
    }
}

use propped_blockchain::network::count_parties;
use propped_blockchain::network::get_ips_from_etc_hosts;
use propped_blockchain::network::get_my_hostname;
use propped_blockchain::network::get_my_name;
use propped_blockchain::network::hostname_has_party_number;
use propped_blockchain::network::hosts_file_is_well_formed;
use propped_blockchain::network::is_whitespace;
use propped_blockchain::network::party_num_from_hostname;

#[test]
fn hosts_file_lists_the_other_parties() {
    let hosts = "127.0.0.1\tlocalhost loghost\n10.10.1.1 node1-link-0 node1\n10.10.1.2   node2\n10.10.1.3 node3\n";
    let ips = get_ips_from_etc_hosts(hosts, "10.10.1.2:8080".to_string());
    assert_eq!(
        ips,
        vec!["10.10.1.1:8080".to_string(), "10.10.1.3:8080".to_string()]
    );
}

#[test]
fn hosts_file_is_trimmed_and_lines_may_be_indented() {
    let hosts = "\n\n   10.0.0.5 a\n \t10.0.0.6\r\n10.0.0.7 c   \n\n";
    let ips = get_ips_from_etc_hosts(hosts, String::new());
    assert_eq!(
        ips,
        vec![
            "10.0.0.5:8080".to_string(),
            "10.0.0.6:8080".to_string(),
            "10.0.0.7:8080".to_string()
        ]
    );
}

#[test]
fn hosts_file_with_a_blank_line_is_refused() {
    assert!(!hosts_file_is_well_formed("10.0.0.5 a\n\n10.0.0.6 b"));
    assert!(!hosts_file_is_well_formed("10.0.0.5 a\n   \n10.0.0.6 b"));
    assert!(hosts_file_is_well_formed("10.0.0.5 a\n10.0.0.6 b\n"));
}

#[test]
fn empty_hosts_file_is_refused() {
    assert!(!hosts_file_is_well_formed(""));
    assert!(!hosts_file_is_well_formed(" \n\t\n "));
}

#[test]
fn only_loopback_and_self_give_no_addresses() {
    let hosts = "127.0.0.1 localhost\n10.10.1.4 node4";
    assert_eq!(
        get_ips_from_etc_hosts(hosts, "10.10.1.4:8080".to_string()),
        Vec::<String>::new()
    );
}

#[test]
fn unicode_spaces_separate_words() {
    let hosts = "\u{3000}10.0.0.9\u{a0}host\u{2003}";
    assert_eq!(
        get_ips_from_etc_hosts(hosts, String::new()),
        vec!["10.0.0.9:8080".to_string()]
    );
}

#[test]
fn whitespace_matches_std() {
    for c in ['\t', '\n', '\u{b}', '\u{c}', '\r', ' ', '\u{85}', '\u{a0}', '\u{1680}', '\u{2000}', '\u{200a}', '\u{2028}', '\u{2029}', '\u{202f}', '\u{205f}', '\u{3000}', 'a', '0', '\u{200b}', '\u{feff}', '.'] {
        assert_eq!(is_whitespace(c), c.is_whitespace(), "{:?}", c);
    }
}

#[test]
fn party_number_is_the_digit_before_the_first_dot() {
    assert_eq!(party_num_from_hostname("node3.tardigrade.emulab.net\n"), 3);
    assert_eq!(party_num_from_hostname("node12.x"), 2);
    assert_eq!(party_num_from_hostname("node0."), 0);
    assert!(hostname_has_party_number("node3.tardigrade.emulab.net\n"));
}

#[test]
fn party_number_missing() {
    assert!(!hostname_has_party_number("localhost\n"));
    assert!(!hostname_has_party_number(".node1"));
    assert!(!hostname_has_party_number("nodeA.lan"));
    assert!(!hostname_has_party_number("node\u{e9}.lan"));
    assert!(!hostname_has_party_number(""));
}

#[test]
fn listen_address_of_a_party() {
    assert_eq!(get_my_hostname(3), "10.10.1.3:8080");
    assert_eq!(get_my_hostname(0), "10.10.1.0:8080");
    assert_eq!(get_my_hostname(250), "10.10.1.250:8080");
    assert_eq!(get_my_hostname(u32::MAX), "10.10.1.4294967295:8080");
}

#[test]
fn name_of_a_party() {
    assert_eq!(get_my_name(7), "node7");
    assert_eq!(get_my_name(10), "node10");
}

#[test]
fn parties_are_the_others_and_oneself() {
    assert_eq!(count_parties(&Vec::new()), 1);
    assert_eq!(count_parties(&vec!["a".to_string(), "b".to_string()]), 3);
}

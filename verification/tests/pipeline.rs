use hibp_check::{digest, hashed_passwords, CheckError, LookupOutcome, Partition};

#[test]
fn test_hashed_passwords() {
    let passwords = vec![
        String::from("BWE!y4xj:i"),
        String::from("NvLK25b+"),
        String::from("xQS?"),
    ];
    let hashed = hashed_passwords(&passwords);
    let expected = vec![
        vec![
            (
                String::from("8E7334AB061EAB6673D2C591D6C77CEEE12DE961"),
                2usize,
            ),
            (
                String::from("8E7336BBDBE0B7F31DE9A06B053ECDF5E356A946"),
                0usize,
            ),
        ],
        vec![(
            String::from("EF867658E9572AC965BBDC5212FAE656570DB09B"),
            1usize,
        )],
    ];
    assert_eq!(expected, hashed);
}

#[test]
fn digest_known_vector() {
    // The classic SHA-1 test vector, rendered upper-case.
    assert_eq!(digest("abc"), "A9993E364706816ABA3E25717850C26C9CD0D89D");
    assert_eq!(
        digest(""),
        "DA39A3EE5E6B4B0D3255BFEF95601890AFD80709"
    );
}

#[test]
fn digest_deterministic() {
    let first = digest("correct horse battery staple");
    let second = digest("correct horse battery staple");
    assert_eq!(first, second);
    assert_eq!(first.len(), 40);
}

fn run_check(passwords: Vec<String>, outcomes: Vec<LookupOutcome>) -> Result<Vec<u64>, CheckError> {
    let partition = Partition::new(&passwords);
    assert_eq!(partition.num_groups(), outcomes.len());
    partition.check_passwords(&outcomes)
}

#[test]
fn empty_input_invokes_no_lookup() {
    let passwords: Vec<String> = vec![];
    let partition = Partition::new(&passwords);
    assert_eq!(partition.num_groups(), 0);
    let outcomes: Vec<LookupOutcome> = vec![];
    match partition.check_passwords(&outcomes) {
        Ok(counts) => assert_eq!(counts, Vec::<u64>::new()),
        Err(_) => panic!("empty input must succeed"),
    }
}

#[test]
fn distinct_prefixes_scenario() {
    // sha1("abc") = A9993E364706816ABA3E25717850C26C9CD0D89D
    // sha1("xyz") = 66B27417D37E024C46526C2F6D358A754FC552F3
    // Groups come in Digest order: the "xyz" group (prefix 66B27) first.
    let passwords = vec![String::from("abc"), String::from("xyz")];
    let partition = Partition::new(&passwords);
    assert_eq!(partition.num_groups(), 2);
    assert_eq!(partition.prefix(0), "66B27");
    assert_eq!(partition.prefix(1), "A9993");
    let outcomes = vec![
        LookupOutcome::Page(String::from("0000000000000000000000000000000000F:3")),
        LookupOutcome::Page(String::from("E364706816ABA3E25717850C26C9CD0D89D:5")),
    ];
    match partition.check_passwords(&outcomes) {
        Ok(counts) => assert_eq!(counts, vec![5, 0]),
        Err(_) => panic!("both lookups were good"),
    }
}

#[test]
fn shared_prefix_queried_once() {
    // Both digests start with 8E733, so exactly one group arises and the
    // single page answers for both secrets.
    let passwords = vec![String::from("BWE!y4xj:i"), String::from("xQS?")];
    let partition = Partition::new(&passwords);
    assert_eq!(partition.num_groups(), 1);
    assert_eq!(partition.prefix(0), "8E733");
    assert_eq!(partition.group_size(0), 2);
    let outcomes = vec![LookupOutcome::Page(String::from(
        "4AB061EAB6673D2C591D6C77CEEE12DE961:7\n6BBDBE0B7F31DE9A06B053ECDF5E356A946:9",
    ))];
    match partition.check_passwords(&outcomes) {
        Ok(counts) => assert_eq!(counts, vec![9, 7]),
        Err(_) => panic!("the single lookup was good"),
    }
}

#[test]
fn no_matches_means_all_zero() {
    let passwords = vec![String::from("BWE!y4xj:i"), String::from("xQS?")];
    let outcomes = vec![LookupOutcome::Page(String::from(
        "0000000000000000000000000000000000F:4",
    ))];
    match run_check(passwords, outcomes) {
        Ok(counts) => assert_eq!(counts, vec![0, 0]),
        Err(_) => panic!("the lookup was good"),
    }
}

#[test]
fn transport_failure_propagates() {
    // Three secrets over two prefixes (8E733 and EF867); the first group's
    // lookup fails, so the whole check fails although the other succeeded.
    let passwords = vec![
        String::from("BWE!y4xj:i"),
        String::from("NvLK25b+"),
        String::from("xQS?"),
    ];
    let outcomes = vec![
        LookupOutcome::TransportFailure,
        LookupOutcome::Page(String::from("658E9572AC965BBDC5212FAE656570DB09B:1")),
    ];
    match run_check(passwords, outcomes) {
        Ok(_) => panic!("a failed lookup must fail the check"),
        Err(CheckError::Transport { prefix }) => assert_eq!(prefix, "8E733"),
        Err(CheckError::Malformed { .. }) => panic!("the failure was transport, not parsing"),
    }
}

#[test]
fn transport_failure_in_second_group() {
    let passwords = vec![
        String::from("BWE!y4xj:i"),
        String::from("NvLK25b+"),
        String::from("xQS?"),
    ];
    let outcomes = vec![
        LookupOutcome::Page(String::from("4AB061EAB6673D2C591D6C77CEEE12DE961:7")),
        LookupOutcome::TransportFailure,
    ];
    match run_check(passwords, outcomes) {
        Ok(_) => panic!("a failed lookup must fail the check"),
        Err(CheckError::Transport { prefix }) => assert_eq!(prefix, "EF867"),
        Err(CheckError::Malformed { .. }) => panic!("the failure was transport, not parsing"),
    }
}

#[test]
fn malformed_page_propagates() {
    let passwords = vec![String::from("abc")];
    let outcomes = vec![LookupOutcome::Page(String::from("no colon on this line"))];
    match run_check(passwords, outcomes) {
        Ok(_) => panic!("a malformed page must fail the check"),
        Err(CheckError::Malformed { prefix }) => assert_eq!(prefix, "A9993"),
        Err(CheckError::Transport { .. }) => panic!("the failure was parsing, not transport"),
    }
}

#[test]
fn repeated_suffix_takes_last_count() {
    let passwords = vec![String::from("abc")];
    let outcomes = vec![LookupOutcome::Page(String::from(
        "E364706816ABA3E25717850C26C9CD0D89D:1\nE364706816ABA3E25717850C26C9CD0D89D:2",
    ))];
    match run_check(passwords, outcomes) {
        Ok(counts) => assert_eq!(counts, vec![2]),
        Err(_) => panic!("the lookup was good"),
    }
}

#[test]
fn check_twice_same_answers_same_output() {
    let passwords = vec![String::from("abc"), String::from("xyz")];
    let partition = Partition::new(&passwords);
    let outcomes = vec![
        LookupOutcome::Page(String::from("417D37E024C46526C2F6D358A754FC552F3:11")),
        LookupOutcome::Page(String::from("E364706816ABA3E25717850C26C9CD0D89D:5")),
    ];
    let first = partition.check_passwords(&outcomes);
    let second = partition.check_passwords(&outcomes);
    match (first, second) {
        (Ok(a), Ok(b)) => {
            assert_eq!(a, vec![5, 11]);
            assert_eq!(a, b);
        }
        _ => panic!("both runs must succeed identically"),
    }
}

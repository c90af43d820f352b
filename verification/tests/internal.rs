use picotest::internal::{
    cluster_ready_signals, lua_ffi_call_unit_test, plugin_dylib_filename, plugin_dylib_path,
    plugin_picodata_path, plugin_profile_build_path, plugin_timeout_secs_default,
    plugin_topology_path, tmp_dir, ClusterConf, PicodataConf,
};

#[test]
fn plugin_paths_are_rooted_at_the_plugin_directory() {
    assert_eq!(plugin_profile_build_path("/plug"), "/plug/target/debug");
    assert_eq!(plugin_topology_path("/plug"), "/plug/topology.toml");
    assert_eq!(plugin_picodata_path("/plug"), "/plug/picodata.yaml");
}

#[test]
fn dylib_path_replaces_dashes_in_the_package_name() {
    assert_eq!(
        plugin_dylib_path("/plug", "my-test-plugin"),
        "/plug/target/debug/libmy_test_plugin.so"
    );
    assert_eq!(plugin_dylib_path("/plug", "plain"), "/plug/target/debug/libplain.so");
}

#[test]
fn dylib_filename_comes_from_the_cluster_name() {
    assert_eq!(plugin_dylib_filename("my-cluster"), "libmy_cluster.so");
    assert_eq!(plugin_dylib_filename("simple"), "libsimple.so");
}

#[test]
fn cluster_name_reads_the_configuration() {
    let conf = PicodataConf {
        cluster: ClusterConf { name: "my-cluster".to_string() },
    };
    assert_eq!(conf.cluster_name().as_str(), "my-cluster");
}

#[test]
fn ffi_call_script_is_built_verbatim() {
    let script = lua_ffi_call_unit_test("test_one", "/plug/target/debug/libp.so");
    let expected = "\n\"[*] Running unit-test 'test_one'\"\n\n\
ffi = require(\"ffi\")\n\
ffi.cdef[[void test_one();]]\n\
dylib = \"/plug/target/debug/libp.so\"\n\
ffi.load(dylib).test_one()\n\n\
\"[*] Test 'test_one' has been finished\"\ntrue";
    assert_eq!(script, expected);
}

#[test]
fn tmp_dir_is_fresh_and_well_shaped() {
    let d = tmp_dir();
    assert_eq!(d.len(), "tmp/tests/".len() + 8);
    assert!(d.starts_with("tmp/tests/"));
    assert!(d["tmp/tests/".len()..].chars().all(|c| c.is_ascii_alphanumeric()));
}

#[test]
fn readiness_signals_are_scanned_off_console_text() {
    let ready = "enabled\ntrue\nConnected to admin console by socket\n";
    assert_eq!(cluster_ready_signals(ready), (true, true));
    let not_connected = "enabled\ntrue\n";
    assert_eq!(cluster_ready_signals(not_connected), (true, false));
    let nothing = "starting";
    assert_eq!(cluster_ready_signals(nothing), (false, false));
}

#[test]
fn default_plugin_timeout_is_five_seconds() {
    assert_eq!(plugin_timeout_secs_default(), 5);
}

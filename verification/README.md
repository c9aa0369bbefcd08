# deploy-common

A deploy agent for a small machine: signed release bundles arrive over HTTPS,
are unpacked, checked and put into place, and systemd is told to restart what
changed. The logic is a library that Verus proves; the programs around it do the
input and output.

## The library

| Module | What it states |
|---|---|
| `hmac` | what is signed, and when a signature is accepted |
| `request` | the headers of a request, and the replay window |
| `archive`, `number` | the headers that a reader comes to in an archive, and their sizes |
| `bundle` | which entries of an archive are unpacked, and the checksums of files |
| `manifest`, `project` | what a bundle says of itself, and what a project may do |
| `release` | the directories of releases, the link to the current one, pruning |
| `systemd` | which unit files are written, and when a job is over |
| `deploy` | the steps of a deploy, and what follows from how each went |
| `run` | what holds of every run of a deploy |
| `ci` | the manifest of a bundle that is built, and the headers it is sent with |
| `admin`, `settings` | onboarding a project, and defaults |
| `path`, `text`, `order`, `hexadecimal` | paths, texts and byte strings |
| `external` | the calls into other crates, with what is taken on trust of them |

## The programs

`app/` is one program under three names: `deploy-agent` receives bundles,
`deploy-ci` builds and sends them, `deploy-admin` onboards projects. It carries
out the steps that the library plans and reports how they went.

## A deploy

1. Read the clock, the project's policy and its secret, and check the signature.
2. Unpack the bundle, and check its manifest and the checksum of every file.
3. Give the binaries inside the bundle their modes, move the release into place, and check the
   files again where they are now.
4. Sync the unit files, and make the release the current one.
5. Stop every managed unit, reload systemd if a unit file changed, and start
   them again.
6. Prune old releases, and answer.

Where a unit does not stop or start, or the reload fails, the previous release
becomes the current one again and the project's units are restarted.
